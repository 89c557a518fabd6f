//! MusicBrainz request rules: paging, Lucene query quoting, identifiers and
//! retry policy. The HTTP client itself lives with the application.
use vstd::prelude::*;

use crate::album_matching::{http_date, http_date_seconds};
use crate::catalog::{
    credit_views, Album, AlbumView, CatalogError, Credit, CreditView, Medium, MediumView, Release,
    ReleaseCandidate, ReleaseView, Track, TrackView,
};
use crate::album_matching::{album_title_variants, title_variants, VariantView};
use crate::album_program::{decimal, push_decimal};
use crate::domain::{id_views, ExternalIdentity, IdentityView};
use crate::order::{
    by_key, distinct_keys, increasing_by, increasing_order, lemma_picked_by_key, picked,
};
use crate::provenance_acceptance::{insert_value, sorted_values};
use crate::text::{append_chars, join_strings, joined, lemma_lex_order, lex_lt, split_whitespace, views, vviews, ws_words};
use crate::text::{
    all_digits, chars_of, is_digit, parse_u64, parsed_u64, str_eq, string_of, trim, trimmed,
};

verus! {

/// The offset of the next page, if the page was nonempty and more remain.
/// The page length is taken modulo 2^32, and the sum saturates.
pub open spec fn next_page(offset: u32, len: usize, count: u32) -> Option<u32> {
    let step = (len as u32) as int;
    let next = if offset + step > u32::MAX {
        u32::MAX as int
    } else {
        offset + step
    };
    if len > 0 && next < count {
        Some(next as u32)
    } else {
        None
    }
}

pub fn next_offset(offset: u32, len: usize, count: u32) -> (r: Option<u32>)
    ensures
        r == next_page(offset, len, count),
{
    let step = len as u32;
    let next = if offset as u64 + step as u64 > 0xffff_ffffu64 {
        0xffff_ffffu32
    } else {
        offset + step
    };
    if len > 0 && next < count {
        Some(next)
    } else {
        None
    }
}

/// Characters with a meaning in Lucene query syntax.
pub open spec fn lucene_special(c: char) -> bool {
    ||| c == '+'
    ||| c == '-'
    ||| c == '!'
    ||| c == '('
    ||| c == ')'
    ||| c == ':'
    ||| c == '^'
    ||| c == '['
    ||| c == ']'
    ||| c == '"'
    ||| c == '{'
    ||| c == '}'
    ||| c == '~'
    ||| c == '*'
    ||| c == '?'
    ||| c == '|'
    ||| c == '&'
    ||| c == '/'
    ||| c == '\\'
}

/// Every special character preceded by a backslash.
pub open spec fn lucene_escaped(s: Seq<char>) -> Seq<char>
    decreases s.len(),
{
    if s.len() == 0 {
        Seq::empty()
    } else {
        lucene_escaped(s.drop_last()) + if lucene_special(s.last()) {
            seq!['\\', s.last()]
        } else {
            seq![s.last()]
        }
    }
}

fn is_special(c: char) -> (r: bool)
    ensures
        r == lucene_special(c),
{
    c == '+' || c == '-' || c == '!' || c == '(' || c == ')' || c == ':' || c == '^' || c == '['
        || c == ']' || c == '"' || c == '{' || c == '}' || c == '~' || c == '*' || c == '?' || c
        == '|' || c == '&' || c == '/' || c == '\\'
}

fn escape_into(value: &str, out: &mut Vec<char>)
    ensures
        final(out)@ == old(out)@ + lucene_escaped(value@),
{
    let chars = chars_of(value);
    let ghost start = out@;
    let mut i: usize = 0;
    while i < chars.len()
        invariant
            i <= chars.len(),
            chars@ == value@,
            out@ == start + lucene_escaped(chars@.take(i as int)),
        decreases chars.len() - i,
    {
        let c = chars[i];
        if is_special(c) {
            out.push('\\');
        }
        out.push(c);
        proof {
            let t = chars@.take(i + 1);
            assert(t.drop_last() =~= chars@.take(i as int));
            assert(t.last() == c);
        }
        assert(out@ =~= start + lucene_escaped(chars@.take(i + 1)));
        i = i + 1;
    }
    assert(chars@.take(chars.len() as int) =~= chars@);
}

/// Escape the characters of Lucene query syntax with a backslash.
pub fn escaped(value: &str) -> (r: String)
    ensures
        r@ == lucene_escaped(value@),
{
    let mut out: Vec<char> = Vec::new();
    escape_into(value, &mut out);
    assert(out@ =~= lucene_escaped(value@));
    string_of(out.as_slice())
}

/// An escaped phrase in double quotes.
pub fn quoted(value: &str) -> (r: String)
    ensures
        r@ == seq!['"'] + lucene_escaped(value@) + seq!['"'],
{
    let mut out: Vec<char> = Vec::new();
    out.push('"');
    escape_into(value, &mut out);
    out.push('"');
    assert(out@ =~= seq!['"'] + lucene_escaped(value@) + seq!['"']);
    string_of(out.as_slice())
}

pub open spec fn hex_digit(c: char) -> bool {
    ('0' <= c && c <= '9') || ('a' <= c && c <= 'f') || ('A' <= c && c <= 'F')
}

/// A MusicBrainz identifier: 36 characters, hyphens at 8, 13, 18 and 23,
/// hexadecimal digits elsewhere.
pub open spec fn mbid_shape(s: Seq<char>) -> bool {
    &&& s.len() == 36
    &&& forall|i: int|
        0 <= i < 36 ==> if i == 8 || i == 13 || i == 18 || i == 23 {
            #[trigger] s[i] == '-'
        } else {
            hex_digit(s[i])
        }
}

pub fn mbid(id: &str) -> (r: Result<(), CatalogError>)
    ensures
        r is Ok <==> mbid_shape(id@),
        r matches Err(e) ==> e matches CatalogError::Other(m) && m@
            == "Invalid MusicBrainz identifier"@,
{
    let chars = chars_of(id);
    let mut ok = chars.len() == 36;
    if ok {
        let mut i: usize = 0;
        while i < 36
            invariant
                i <= 36,
                chars@ == id@,
                chars@.len() == 36,
                ok == forall|k: int|
                    0 <= k < i ==> if k == 8 || k == 13 || k == 18 || k == 23 {
                        #[trigger] chars@[k] == '-'
                    } else {
                        hex_digit(chars@[k])
                    },
            decreases 36 - i,
        {
            let c = chars[i];
            let fits = if i == 8 || i == 13 || i == 18 || i == 23 {
                c == '-'
            } else {
                ('0' <= c && c <= '9') || ('a' <= c && c <= 'f') || ('A' <= c && c <= 'F')
            };
            if !fits {
                ok = false;
            }
            i = i + 1;
        }
    }
    if ok {
        Ok(())
    } else {
        Err(CatalogError::Other(string_of(chars_of("Invalid MusicBrainz identifier").as_slice())))
    }
}

/// Why an identity is refused as a MusicBrainz identity of the given kind.
pub open spec fn identity_refusal(id: IdentityView, kind: Seq<char>) -> Seq<char> {
    if id.provider == "musicbrainz"@ && id.kind == kind {
        "Invalid MusicBrainz identifier"@
    } else {
        "Unsupported MusicBrainz identity kind/provider"@
    }
}

/// A MusicBrainz identity of the given kind with a well-formed identifier.
pub fn require_identity(id: &ExternalIdentity, kind: &str) -> (r: Result<(), CatalogError>)
    ensures
        r is Ok <==> (id@.provider == "musicbrainz"@ && id@.kind == kind@ && mbid_shape(
            id@.external_id,
        )),
        r matches Err(e) ==> e matches CatalogError::Other(m) && m@ == identity_refusal(
            id@,
            kind@,
        ),
{
    if !str_eq(id.provider.as_str(), "musicbrainz") || !str_eq(id.kind.as_str(), kind) {
        return Err(
            CatalogError::Other(
                string_of(chars_of("Unsupported MusicBrainz identity kind/provider").as_slice()),
            ),
        );
    }
    mbid(id.external_id.as_str())
}

/// The wait a `Retry-After` header asks for, in seconds at time `now`: a
/// number of seconds (too many digits for `u64` mean an unbounded wait), else
/// an HTTP date (no wait once it has passed), else nothing.
pub open spec fn header_wait(header: Seq<char>, now: u64) -> Option<u64> {
    let v = trimmed(header);
    if v.len() > 0 && all_digits(v) {
        match parsed_u64(v) {
            Some(n) => Some(n),
            None => Some(u64::MAX),
        }
    } else {
        match http_date(v) {
            Some(d) => Some(if d >= now {
                (d - now) as u64
            } else {
                0
            }),
            None => None,
        }
    }
}

/// Retry at most twice; wait what the server asks, else 2 then 4 seconds;
/// never retry sooner than a wait longer than a minute.
pub open spec fn retry_wait(attempt: u32, header: Option<Seq<char>>, now: u64) -> Option<u64> {
    if attempt >= 2 {
        None
    } else {
        let requested = match header {
            Some(h) => header_wait(h, now),
            None => None,
        };
        let delay: u64 = match requested {
            Some(d) => d,
            None => if attempt == 0 {
                2
            } else {
                4
            },
        };
        if delay <= 60 {
            Some(delay)
        } else {
            None
        }
    }
}

fn ascii_digits(v: &Vec<char>) -> (r: bool)
    ensures
        r == all_digits(v@),
{
    let mut i: usize = 0;
    while i < v.len()
        invariant
            i <= v.len(),
            forall|k: int| 0 <= k < i ==> is_digit(#[trigger] v@[k]),
        decreases v.len() - i,
    {
        if !('0' <= v[i] && v[i] <= '9') {
            assert(!is_digit(v@[i as int]));
            return false;
        }
        i = i + 1;
    }
    true
}

/// The delay before retry `attempt` (0 or 1), in seconds; `None` when no
/// retry should follow. `now` is in seconds after the Unix epoch.
pub fn retry_delay(attempt: u32, header: Option<&str>, now: u64) -> (r: Option<u64>)
    ensures
        r == retry_wait(
            attempt,
            match header {
                Some(h) => Some(h@),
                None => None,
            },
            now,
        ),
{
    if attempt >= 2 {
        return None;
    }
    let requested = match header {
        Some(h) => {
            let v = trim(&chars_of(h));
            if v.len() > 0 && ascii_digits(&v) {
                match parse_u64(&v) {
                    Some(n) => Some(n),
                    None => Some(0xffff_ffff_ffff_ffffu64),
                }
            } else {
                match http_date_seconds(string_of(v.as_slice()).as_str()) {
                    Some(d) => Some(
                        if d >= now {
                            d - now
                        } else {
                            0
                        },
                    ),
                    None => None,
                }
            }
        },
        None => None,
    };
    let delay = match requested {
        Some(d) => d,
        None => if attempt == 0 {
            2
        } else {
            4
        },
    };
    if delay <= 60 {
        Some(delay)
    } else {
        None
    }
}

/// No retry follows the second one, no retry waits longer than a minute, and
/// without a header the waits are 2 and then 4 seconds.
pub proof fn lemma_retries_are_bounded(attempt: u32, header: Option<Seq<char>>, now: u64)
    ensures
        attempt >= 2 ==> retry_wait(attempt, header, now) is None,
        retry_wait(attempt, header, now) matches Some(d) ==> d <= 60,
        attempt < 2 && header is None ==> retry_wait(attempt, header, now) == Some(
            if attempt == 0 {
                2u64
            } else {
                4u64
            },
        ),
{
}

/// A delay in seconds too large for `u64` means too long a wait, never
/// permission to retry sooner.
pub proof fn lemma_overflowing_delay_gives_up(attempt: u32, header: Seq<char>, now: u64)
    requires
        trimmed(header).len() > 0,
        all_digits(trimmed(header)),
        parsed_u64(trimmed(header)) is None,
    ensures
        retry_wait(attempt, Some(header), now) is None,
{
}

/// Paging strictly advances and stops before the reported count.
pub proof fn lemma_paging_advances(offset: u32, len: usize, count: u32)
    requires
        0 < len <= u32::MAX,
    ensures
        next_page(offset, len, count) matches Some(n) ==> offset < n < count,
{
    assert((len as u32) as int == len as int) by (bit_vector)
        requires
            0 < len <= u32::MAX,
    ;
}

// ---------------------------------------------------------------------------
// Search queries.

/// An escaped phrase in double quotes.
pub open spec fn lucene_quoted(s: Seq<char>) -> Seq<char> {
    seq!['"'] + lucene_escaped(s) + seq!['"']
}

fn push_text(out: &mut Vec<char>, s: &str)
    ensures
        final(out)@ == old(out)@ + s@,
{
    let extra = chars_of(s);
    append_chars(out, &extra);
}

/// The Artist search: the name as an Artist's name or as one of its aliases.
pub fn artist_query(name: &str) -> (r: String)
    ensures
        r@ == "(artist:"@ + lucene_quoted(name@) + " OR alias:"@ + lucene_quoted(name@) + ")"@,
{
    let q = quoted(name);
    let mut out: Vec<char> = Vec::new();
    push_text(&mut out, "(artist:");
    push_text(&mut out, q.as_str());
    push_text(&mut out, " OR alias:");
    push_text(&mut out, q.as_str());
    push_text(&mut out, ")");
    assert(out@ =~= "(artist:"@ + lucene_quoted(name@) + " OR alias:"@ + lucene_quoted(name@)
        + ")"@);
    string_of(out.as_slice())
}

/// The Artist scope terms, one per candidate.
pub open spec fn arid_terms(artists: Seq<ExternalIdentity>) -> Seq<Seq<char>> {
    artists.map_values(|a: ExternalIdentity| "arid:"@ + a.external_id@)
}

/// The distinct values, in ascending order.
pub open spec fn sorted_distinct(s: Seq<Seq<char>>) -> Seq<Seq<char>> {
    choose|r: Seq<Seq<char>>| sorted_values(r) && r.to_set() == s.to_set()
}

/// One alternative as it is, several in parentheses joined by OR.
pub open spec fn any_of(parts: Seq<Seq<char>>) -> Seq<char> {
    if parts.len() == 1 {
        parts[0]
    } else {
        "("@ + joined(parts, " OR "@) + ")"@
    }
}

/// One title word with a bounded number of edits.
pub open spec fn fuzzy_term(word: Seq<char>, max_edits: u8) -> Seq<char> {
    "releasegroup:"@ + lucene_escaped(word) + "~"@ + decimal(max_edits as nat)
}

/// The exact title, or from five characters on also every word within the
/// edit bound.
pub open spec fn title_terms(title: Seq<char>, max_edits: u8) -> Seq<char> {
    let exact = "releasegroup:"@ + lucene_quoted(title);
    if title.len() >= 5 {
        "("@ + exact + " OR ("@ + joined(
            ws_words(title).map_values(|w: Seq<char>| fuzzy_term(w, max_edits)),
            " AND "@,
        ) + "))"@
    } else {
        exact
    }
}

/// The title terms, then the title's format-free variants exactly.
pub open spec fn title_alternatives(title: Seq<char>, max_edits: u8) -> Seq<Seq<char>> {
    seq![title_terms(title, max_edits)] + title_variants(title).map_values(
        |v: VariantView| "releasegroup:"@ + lucene_quoted(v.title),
    )
}

/// The Release Group search inside the candidate Artists.
pub open spec fn release_group_query_of(
    artists: Seq<ExternalIdentity>,
    title: Seq<char>,
    max_edits: u8,
) -> Seq<char> {
    any_of(sorted_distinct(arid_terms(artists))) + " AND "@ + any_of(
        title_alternatives(title, max_edits),
    )
}

/// A refusal with the given message.
pub open spec fn refused_with(e: CatalogError, message: Seq<char>) -> bool {
    e matches CatalogError::Other(m) && m@ == message
}

pub open spec fn artist_identity_ok(a: IdentityView) -> bool {
    a.provider == "musicbrainz"@ && a.kind == "artist"@ && mbid_shape(a.external_id)
}

proof fn lemma_sorted_unique(a: Seq<Seq<char>>, b: Seq<Seq<char>>)
    requires
        sorted_values(a),
        sorted_values(b),
        a.to_set() == b.to_set(),
    ensures
        a == b,
    decreases a.len(),
{
    if a.len() == 0 {
        if b.len() > 0 {
            assert(b.to_set().contains(b[0]));
            assert(a.to_set().contains(b[0]));
        }
        assert(a =~= b);
    } else {
        assert(a.to_set().contains(a[0]));
        assert(b.to_set().contains(a[0]));
        let k = choose|k: int| 0 <= k < b.len() && b[k] == a[0];
        assert(b.to_set().contains(b[0]));
        assert(a.to_set().contains(b[0]));
        let m = choose|m: int| 0 <= m < a.len() && a[m] == b[0];
        lemma_lex_order(a[0], b[0], a[0]);
        if m > 0 && k > 0 {
            assert(lex_lt(a[0], b[0]));
            assert(lex_lt(b[0], a[0]));
        }
        assert(a[0] == b[0]);
        let a1 = a.drop_first();
        let b1 = b.drop_first();
        assert forall|x: Seq<char>| #[trigger] a1.to_set().contains(x) <==> b1.to_set().contains(x) by {
            if a1.to_set().contains(x) {
                let j = choose|j: int| 0 <= j < a1.len() && a1[j] == x;
                assert(a[j + 1] == x);
                assert(lex_lt(a[0], a[j + 1]));
                lemma_lex_order(x, x, x);
                assert(a.to_set().contains(x));
                let i = choose|i: int| 0 <= i < b.len() && b[i] == x;
                assert(i != 0);
                assert(b1[i - 1] == x);
            }
            if b1.to_set().contains(x) {
                let j = choose|j: int| 0 <= j < b1.len() && b1[j] == x;
                assert(b[j + 1] == x);
                assert(lex_lt(b[0], b[j + 1]));
                lemma_lex_order(x, x, x);
                assert(b.to_set().contains(x));
                let i = choose|i: int| 0 <= i < a.len() && a[i] == x;
                assert(i != 0);
                assert(a1[i - 1] == x);
            }
        }
        assert(a1.to_set() =~= b1.to_set());
        lemma_sorted_unique(a1, b1);
        assert forall|i: int| 0 <= i < a.len() implies a[i] == b[i] by {
            if i > 0 {
                assert(a[i] == a1[i - 1]);
                assert(b[i] == b1[i - 1]);
            }
        }
        assert(a =~= b);
    }
}

fn any_of_exec(parts: &Vec<String>) -> (r: Vec<char>)
    ensures
        r@ == any_of(views(parts@)),
{
    if parts.len() == 1 {
        assert(views(parts@)[0] == parts@[0]@);
        return chars_of(parts[0].as_str());
    }
    let mut out: Vec<char> = Vec::new();
    push_text(&mut out, "(");
    let body = join_strings(parts.as_slice(), " OR ");
    append_chars(&mut out, &body);
    push_text(&mut out, ")");
    out
}

/// The Release Group search for an Album title among a bounded, nonempty set
/// of candidate MusicBrainz Artists: each Artist scope once, in order, and the
/// title exactly, word by word within `max_edits` edits, or as one of its
/// format-free variants.
pub fn release_group_query(artists: &[ExternalIdentity], title: &str, max_edits: u8) -> (r: Result<
    String,
    CatalogError,
>)
    ensures
        artists@.len() == 0 || artists@.len() > 10 ==> (r matches Err(e) && refused_with(
            e,
            "Expected a bounded nonempty Artist candidate set"@,
        )),
        0 < artists@.len() <= 10 ==> match r {
            Ok(q) => (forall|k: int|
                0 <= k < artists@.len() ==> artist_identity_ok(#[trigger] artists@[k]@)) && q@
                == release_group_query_of(artists@, title@, max_edits),
            Err(e) => exists|k: int|
                0 <= k < artists@.len() && !artist_identity_ok(#[trigger] artists@[k]@) && (forall|
                    j: int,
                | 0 <= j < k ==> artist_identity_ok(#[trigger] artists@[j]@)) && refused_with(
                    e,
                    identity_refusal(artists@[k]@, "artist"@),
                ),
        },
{
    if artists.len() == 0 || artists.len() > 10 {
        return Err(
            CatalogError::Other(
                string_of(chars_of("Expected a bounded nonempty Artist candidate set").as_slice()),
            ),
        );
    }
    let ghost terms = arid_terms(artists@);
    let mut scopes: Vec<String> = Vec::new();
    let mut k: usize = 0;
    assert(views(scopes@).to_set() =~= terms.take(0).to_set());
    while k < artists.len()
        invariant
            k <= artists.len(),
            0 < artists@.len() <= 10,
            terms == arid_terms(artists@),
            sorted_values(views(scopes@)),
            views(scopes@).to_set() == terms.take(k as int).to_set(),
            forall|j: int| 0 <= j < k ==> artist_identity_ok(#[trigger] artists@[j]@),
        decreases artists.len() - k,
    {
        let a = &artists[k];
        match require_identity(a, "artist") {
            Ok(()) => {},
            Err(e) => {
                proof {
                    reveal_strlit("artist");
                }
                assert(!artist_identity_ok(artists@[k as int]@));
                return Err(e);
            },
        }
        proof {
            reveal_strlit("artist");
        }
        let mut term = chars_of("arid:");
        append_chars(&mut term, &chars_of(a.external_id.as_str()));
        let t = string_of(term.as_slice());
        assert(t@ == terms[k as int]);
        let ghost before = views(scopes@).to_set();
        insert_value(&mut scopes, &t);
        assert(terms.take(k + 1) =~= terms.take(k as int).push(terms[k as int]));
        assert(terms.take(k + 1).to_set() =~= terms.take(k as int).to_set().insert(terms[k as int]))
            by {
            assert forall|x: Seq<char>| #[trigger] terms.take(k + 1).to_set().contains(x) <==> terms.take(
                k as int,
            ).to_set().insert(terms[k as int]).contains(x) by {
                let p = terms.take(k as int);
                let q = terms.take(k + 1);
                if q.to_set().contains(x) {
                    let i = choose|i: int| 0 <= i < q.len() && q[i] == x;
                    if i < k {
                        assert(p[i] == x);
                    }
                }
                if p.to_set().contains(x) {
                    let i = choose|i: int| 0 <= i < p.len() && p[i] == x;
                    assert(q[i] == x);
                }
                if x == terms[k as int] {
                    assert(q[k as int] == x);
                }
            }
        }
        k = k + 1;
    }
    assert(terms.take(artists.len() as int) =~= terms);
    proof {
        let sv = views(scopes@);
        assert(sorted_values(sv) && sv.to_set() == terms.to_set());
        let chosen = sorted_distinct(terms);
        assert(sorted_values(chosen) && chosen.to_set() == terms.to_set());
        lemma_sorted_unique(sv, chosen);
    }
    let scope = any_of_exec(&scopes);
    // Word terms within the edit bound.
    let title_chars = chars_of(title);
    let words = split_whitespace(&title_chars);
    let ghost ws = ws_words(title@);
    let mut fuzzy: Vec<String> = Vec::new();
    let mut w: usize = 0;
    while w < words.len()
        invariant
            w <= words.len(),
            vviews(words@) == ws,
            views(fuzzy@) == ws.take(w as int).map_values(|x: Seq<char>| fuzzy_term(x, max_edits)),
        decreases words.len() - w,
    {
        let mut part = chars_of("releasegroup:");
        let e = escaped(string_of(words[w].as_slice()).as_str());
        append_chars(&mut part, &chars_of(e.as_str()));
        push_text(&mut part, "~");
        push_decimal(&mut part, max_edits as usize);
        assert(vviews(words@)[w as int] == words@[w as int]@);
        assert(part@ == fuzzy_term(ws[w as int], max_edits));
        let ghost before = views(fuzzy@);
        fuzzy.push(string_of(part.as_slice()));
        assert(views(fuzzy@) =~= before.push(fuzzy_term(ws[w as int], max_edits)));
        assert(ws.take(w + 1).map_values(|x: Seq<char>| fuzzy_term(x, max_edits)) =~= ws.take(
            w as int,
        ).map_values(|x: Seq<char>| fuzzy_term(x, max_edits)).push(fuzzy_term(ws[w as int], max_edits)));
        w = w + 1;
    }
    assert(ws.take(words.len() as int) =~= ws);
    let q = quoted(title);
    let mut exact = chars_of("releasegroup:");
    append_chars(&mut exact, &chars_of(q.as_str()));
    let terms_text = if title_chars.len() >= 5 {
        let mut t = chars_of("(");
        append_chars(&mut t, &exact);
        push_text(&mut t, " OR (");
        let joined_words = join_strings(fuzzy.as_slice(), " AND ");
        append_chars(&mut t, &joined_words);
        push_text(&mut t, "))");
        t
    } else {
        exact
    };
    assert(terms_text@ == title_terms(title@, max_edits));
    let variants = album_title_variants(title);
    let mut alternatives: Vec<String> = Vec::new();
    alternatives.push(string_of(terms_text.as_slice()));
    let ghost vs = title_variants(title@);
    let ghost alts = title_alternatives(title@, max_edits);
    let mut v: usize = 0;
    while v < variants.len()
        invariant
            v <= variants.len(),
            crate::album_matching::variant_views(variants@) == vs,
            alts == title_alternatives(title@, max_edits),
            vs == title_variants(title@),
            views(alternatives@) == alts.take(v + 1),
        decreases variants.len() - v,
    {
        let mut part = chars_of("releasegroup:");
        let qv = quoted(variants[v].title.as_str());
        append_chars(&mut part, &chars_of(qv.as_str()));
        assert(crate::album_matching::variant_views(variants@)[v as int] == variants@[v as int]@);
        assert(part@ == alts[v + 1]);
        let ghost before = views(alternatives@);
        alternatives.push(string_of(part.as_slice()));
        assert(views(alternatives@) =~= before.push(alts[v + 1]));
        assert(alts.take(v + 2) =~= alts.take(v + 1).push(alts[v + 1]));
        v = v + 1;
    }
    assert(alts.take(variants.len() + 1) =~= alts);
    let alternatives_text = any_of_exec(&alternatives);
    let mut out = scope;
    push_text(&mut out, " AND ");
    append_chars(&mut out, &alternatives_text);
    Ok(string_of(out.as_slice()))
}

// ---------------------------------------------------------------------------
// Release documents.

/// An Artist credit as a Release document carries it; `artist` is the
/// credited Artist's identifier, where the document names one.
#[derive(Debug)]
pub struct ArtistCredit {
    pub name: String,
    pub artist: Option<String>,
    pub joinphrase: String,
}

#[derive(Debug)]
pub struct TrackRecording {
    pub id: String,
    pub title: String,
    pub credits: Vec<ArtistCredit>,
    pub isrcs: Vec<String>,
    pub length: Option<u64>,
}

#[derive(Debug)]
pub struct ReleaseTrack {
    pub id: String,
    pub position: u32,
    pub title: Option<String>,
    pub credits: Option<Vec<ArtistCredit>>,
    pub recording: TrackRecording,
}

/// A medium; pregap and data tracks are listed apart from the counted tracks.
#[derive(Debug)]
pub struct ReleaseMedium {
    pub position: u32,
    pub track_count: usize,
    pub tracks: Vec<ReleaseTrack>,
    pub data_tracks: Vec<ReleaseTrack>,
    pub pregap: Option<ReleaseTrack>,
}

#[derive(Debug)]
pub struct GroupRef {
    pub id: String,
    pub title: String,
    pub date: Option<String>,
    pub credits: Vec<ArtistCredit>,
}

/// A Release with its group, media and recordings.
#[derive(Debug)]
pub struct FullRelease {
    pub id: String,
    pub title: String,
    pub date: Option<String>,
    pub credits: Vec<ArtistCredit>,
    pub group: GroupRef,
    pub media: Vec<ReleaseMedium>,
}

pub open spec fn mb_identity(kind: Seq<char>, id: Seq<char>) -> IdentityView {
    IdentityView { provider: "musicbrainz"@, kind, external_id: id }
}

pub open spec fn converted_credit(c: ArtistCredit) -> CreditView {
    CreditView {
        identity: match c.artist {
            Some(a) => Some(mb_identity("artist"@, a@)),
            None => None,
        },
        name: c.name@,
        join_phrase: c.joinphrase@,
    }
}

pub open spec fn converted_credits(cs: Seq<ArtistCredit>) -> Seq<CreditView> {
    cs.map_values(|c: ArtistCredit| converted_credit(c))
}

pub open spec fn or_empty(s: Option<String>) -> Seq<char> {
    match s {
        Some(v) => v@,
        None => Seq::empty(),
    }
}

/// A track's own credits, else its recording's; none at all fall back to
/// the Release's.
pub open spec fn track_credits(t: ReleaseTrack, release_credits: Seq<CreditView>) -> Seq<CreditView> {
    let values = match t.credits {
        Some(c) => c@,
        None => t.recording.credits@,
    };
    if values.len() == 0 {
        release_credits
    } else {
        converted_credits(values)
    }
}

/// The track and recording identities, then one ISRC identity per ISRC.
pub open spec fn track_identities(t: ReleaseTrack) -> Seq<IdentityView> {
    seq![mb_identity("track"@, t.id@), mb_identity("recording"@, t.recording.id@)]
        + t.recording.isrcs@.map_values(
        |i: String| IdentityView { provider: "isrc"@, kind: "recording"@, external_id: i@ },
    )
}

pub open spec fn converted_track(t: ReleaseTrack, release_credits: Seq<CreditView>) -> TrackView {
    TrackView {
        position: t.position,
        title: match t.title {
            Some(x) => x@,
            None => t.recording.title@,
        },
        credits: track_credits(t, release_credits),
        identities: track_identities(t),
    }
}

/// The counted tracks, then the data tracks, then the pregap.
pub open spec fn all_tracks(m: ReleaseMedium) -> Seq<ReleaseTrack> {
    m.tracks@ + m.data_tracks@ + match m.pregap {
        Some(t) => seq![t],
        None => Seq::empty(),
    }
}

pub open spec fn track_position() -> spec_fn(ReleaseTrack) -> int {
    |t: ReleaseTrack| t.position as int
}

pub open spec fn medium_position() -> spec_fn(ReleaseMedium) -> int {
    |m: ReleaseMedium| m.position as int
}

pub open spec fn identified(t: ReleaseTrack) -> bool {
    mbid_shape(t.id@) && mbid_shape(t.recording.id@)
}

/// What is wrong with a medium, if anything, in the order it is checked.
pub open spec fn medium_problem(m: ReleaseMedium) -> Option<Seq<char>> {
    let ts = all_tracks(m);
    if m.position == 0 || m.tracks@.len() != m.track_count {
        Some("Release tracklist is incomplete"@)
    } else if !distinct_keys(ts, track_position()) {
        Some("Duplicate track positions"@)
    } else if exists|i: int| 0 <= i < ts.len() && !identified(#[trigger] ts[i]) {
        Some("Invalid MusicBrainz identifier"@)
    } else {
        None
    }
}

/// The problem of the first medium that has one.
pub open spec fn first_medium_problem(ms: Seq<ReleaseMedium>) -> Option<Seq<char>>
    decreases ms.len(),
{
    if ms.len() == 0 {
        None
    } else {
        match first_medium_problem(ms.drop_last()) {
            Some(p) => Some(p),
            None => medium_problem(ms.last()),
        }
    }
}

pub open spec fn media_in_order(r: FullRelease) -> Seq<ReleaseMedium> {
    by_key(r.media@, medium_position())
}

/// Why a Release document is refused, if it is.
pub open spec fn release_problem(r: FullRelease) -> Option<Seq<char>> {
    let media = media_in_order(r);
    if !mbid_shape(r.id@) || !mbid_shape(r.group.id@) {
        Some("Invalid MusicBrainz identifier"@)
    } else if r.media@.len() == 0 || !distinct_keys(r.media@, medium_position()) {
        Some("Release has missing or duplicate media"@)
    } else if first_medium_problem(media) is Some {
        first_medium_problem(media)
    } else if forall|k: int| 0 <= k < media.len() ==> all_tracks(#[trigger] media[k]).len() == 0 {
        Some("Release has no Tracks"@)
    } else {
        None
    }
}

pub open spec fn converted_medium(m: ReleaseMedium, release_credits: Seq<CreditView>) -> MediumView {
    MediumView {
        position: m.position,
        tracks: by_key(all_tracks(m), track_position()).map_values(
            |t: ReleaseTrack| converted_track(t, release_credits),
        ),
    }
}

/// The catalog Release of a well-formed document: media and tracks by
/// position, group credits falling back to the Release's.
pub open spec fn converted_release(r: FullRelease) -> ReleaseView {
    let rc = converted_credits(r.credits@);
    ReleaseView {
        album: AlbumView {
            identity: mb_identity("release_group"@, r.group.id@),
            title: r.group.title@,
            date: or_empty(r.group.date),
            credits: if r.group.credits@.len() == 0 {
                rc
            } else {
                converted_credits(r.group.credits@)
            },
        },
        identity: mb_identity("release"@, r.id@),
        identities: Seq::empty(),
        title: r.title@,
        date: or_empty(r.date),
        credits: rc,
        media: media_in_order(r).map_values(|m: ReleaseMedium| converted_medium(m, rc)),
    }
}

proof fn lemma_first_problem_stays(s: Seq<ReleaseMedium>, k: int)
    requires
        0 <= k <= s.len(),
        first_medium_problem(s.take(k)) is Some,
    ensures
        first_medium_problem(s) == first_medium_problem(s.take(k)),
    decreases s.len() - k,
{
    if k < s.len() {
        assert(s.take(k + 1).drop_last() =~= s.take(k));
        lemma_first_problem_stays(s, k + 1);
    } else {
        assert(s.take(k) =~= s);
    }
}

fn refusal(message: &str) -> (e: CatalogError)
    ensures
        e matches CatalogError::Other(m) && m@ == message@,
{
    CatalogError::Other(string_of(chars_of(message).as_slice()))
}

fn musicbrainz_identity(kind: &str, id: &String) -> (r: ExternalIdentity)
    ensures
        r@ == mb_identity(kind@, id@),
{
    ExternalIdentity::new("musicbrainz", kind, id.as_str())
}

/// Credits as the catalog keeps them: the credited Artist's identity apart
/// from the printed name.
pub fn credits(values: &Vec<ArtistCredit>) -> (r: Vec<Credit>)
    ensures
        credit_views(r@) == converted_credits(values@),
{
    let mut out: Vec<Credit> = Vec::new();
    let mut i: usize = 0;
    while i < values.len()
        invariant
            i <= values.len(),
            credit_views(out@) == converted_credits(values@).take(i as int),
        decreases values.len() - i,
    {
        let c = &values[i];
        let identity = match &c.artist {
            Some(a) => Some(musicbrainz_identity("artist", a)),
            None => None,
        };
        let ghost before = credit_views(out@);
        out.push(Credit { identity, name: c.name.clone(), join_phrase: c.joinphrase.clone() });
        assert(credit_views(out@) =~= before.push(converted_credit(*c)));
        assert(converted_credits(values@).take(i + 1) =~= converted_credits(values@).take(i as int).push(
            converted_credit(values@[i as int]),
        ));
        i = i + 1;
    }
    assert(converted_credits(values@).take(values.len() as int) =~= converted_credits(values@));
    out
}

fn copy_credits(values: &Vec<Credit>) -> (r: Vec<Credit>)
    ensures
        credit_views(r@) == credit_views(values@),
{
    let mut out: Vec<Credit> = Vec::new();
    let mut i: usize = 0;
    while i < values.len()
        invariant
            i <= values.len(),
            credit_views(out@) == credit_views(values@).take(i as int),
        decreases values.len() - i,
    {
        let c = &values[i];
        let identity = match &c.identity {
            Some(a) => Some(a.clone()),
            None => None,
        };
        let ghost before = credit_views(out@);
        out.push(Credit { identity, name: c.name.clone(), join_phrase: c.join_phrase.clone() });
        assert(credit_views(out@) =~= before.push(values@[i as int]@));
        assert(credit_views(values@).take(i + 1) =~= credit_views(values@).take(i as int).push(
            values@[i as int]@,
        ));
        i = i + 1;
    }
    assert(credit_views(values@).take(values.len() as int) =~= credit_views(values@));
    out
}

fn convert_track(t: &ReleaseTrack, release_credits: &Vec<Credit>) -> (r: Track)
    ensures
        r@ == converted_track(*t, credit_views(release_credits@)),
{
    let mut identities: Vec<ExternalIdentity> = Vec::new();
    identities.push(musicbrainz_identity("track", &t.id));
    identities.push(musicbrainz_identity("recording", &t.recording.id));
    let ghost isrc_ids = t.recording.isrcs@.map_values(
        |i: String| IdentityView { provider: "isrc"@, kind: "recording"@, external_id: i@ },
    );
    let ghost head = seq![mb_identity("track"@, t.id@), mb_identity("recording"@, t.recording.id@)];
    assert(id_views(identities@) =~= head + isrc_ids.take(0));
    let mut i: usize = 0;
    while i < t.recording.isrcs.len()
        invariant
            i <= t.recording.isrcs.len(),
            id_views(identities@) == head + isrc_ids.take(i as int),
            isrc_ids == t.recording.isrcs@.map_values(
                |i: String| IdentityView { provider: "isrc"@, kind: "recording"@, external_id: i@ },
            ),
        decreases t.recording.isrcs.len() - i,
    {
        let ghost before = id_views(identities@);
        identities.push(ExternalIdentity::new("isrc", "recording", t.recording.isrcs[i].as_str()));
        assert(id_views(identities@) =~= before.push(isrc_ids[i as int]));
        assert(head + isrc_ids.take(i + 1) =~= (head + isrc_ids.take(i as int)).push(isrc_ids[i as int]));
        i = i + 1;
    }
    assert(isrc_ids.take(isrc_ids.len() as int) =~= isrc_ids);
    let values = match &t.credits {
        Some(c) => c,
        None => &t.recording.credits,
    };
    let credits = if values.len() == 0 {
        copy_credits(release_credits)
    } else {
        credits(values)
    };
    let title = match &t.title {
        Some(x) => x.clone(),
        None => t.recording.title.clone(),
    };
    Track { position: t.position, title, credits, identities }
}

spec fn derefs(s: Seq<&ReleaseTrack>) -> Seq<ReleaseTrack> {
    s.map_values(|t: &ReleaseTrack| *t)
}

fn medium_tracks(m: &ReleaseMedium) -> (r: Vec<&ReleaseTrack>)
    ensures
        derefs(r@) == all_tracks(*m),
{
    let mut out: Vec<&ReleaseTrack> = Vec::new();
    let mut i: usize = 0;
    while i < m.tracks.len()
        invariant
            i <= m.tracks.len(),
            derefs(out@) == m.tracks@.take(i as int),
        decreases m.tracks.len() - i,
    {
        let ghost before = out@;
        out.push(&m.tracks[i]);
        assert(derefs(out@) =~= derefs(before).push(m.tracks@[i as int]));
        assert(m.tracks@.take(i + 1) =~= m.tracks@.take(i as int).push(m.tracks@[i as int]));
        i = i + 1;
    }
    assert(m.tracks@.take(m.tracks.len() as int) =~= m.tracks@);
    let mut i: usize = 0;
    while i < m.data_tracks.len()
        invariant
            i <= m.data_tracks.len(),
            derefs(out@) == m.tracks@ + m.data_tracks@.take(i as int),
        decreases m.data_tracks.len() - i,
    {
        let ghost before = out@;
        out.push(&m.data_tracks[i]);
        assert(derefs(out@) =~= derefs(before).push(m.data_tracks@[i as int]));
        assert(m.tracks@ + m.data_tracks@.take(i + 1) =~= (m.tracks@ + m.data_tracks@.take(
            i as int,
        )).push(m.data_tracks@[i as int]));
        i = i + 1;
    }
    assert(m.data_tracks@.take(m.data_tracks.len() as int) =~= m.data_tracks@);
    match &m.pregap {
        Some(t) => {
            out.push(t);
        },
        None => {},
    }
    assert(derefs(out@) =~= all_tracks(*m));
    out
}

fn distinct_u32(keys: &Vec<u32>) -> (r: bool)
    ensures
        r == forall|i: int, j: int|
            0 <= i < keys@.len() && 0 <= j < keys@.len() && i != j ==> keys@[i] != keys@[j],
{
    let mut i: usize = 0;
    while i < keys.len()
        invariant
            i <= keys.len(),
            forall|a: int, b: int|
                0 <= a < i && 0 <= b < keys@.len() && a != b ==> keys@[a] != keys@[b],
        decreases keys.len() - i,
    {
        let mut j: usize = 0;
        while j < keys.len()
            invariant
                i < keys.len(),
                j <= keys.len(),
                forall|a: int, b: int|
                    0 <= a < i && 0 <= b < keys@.len() && a != b ==> keys@[a] != keys@[b],
                forall|b: int| 0 <= b < j && b != i ==> keys@[i as int] != keys@[b],
            decreases keys.len() - j,
        {
            if j != i && keys[i] == keys[j] {
                return false;
            }
            j = j + 1;
        }
        i = i + 1;
    }
    true
}

fn convert_medium(m: &ReleaseMedium, release_credits: &Vec<Credit>) -> (r: Result<Medium, CatalogError>)
    ensures
        match r {
            Ok(v) => {
                &&& medium_problem(*m) is None
                &&& v@ == converted_medium(*m, credit_views(release_credits@))
                &&& v@.tracks.len() == all_tracks(*m).len()
            },
            Err(e) => medium_problem(*m) matches Some(p) && e matches CatalogError::Other(x) && x@ == p,
        },
{
    if m.position == 0 || m.tracks.len() != m.track_count {
        return Err(refusal("Release tracklist is incomplete"));
    }
    let all = medium_tracks(m);
    let ghost ts = all_tracks(*m);
    let mut keys: Vec<u32> = Vec::new();
    let mut i: usize = 0;
    while i < all.len()
        invariant
            i <= all.len(),
            derefs(all@) == ts,
            keys@.len() == i,
            forall|k: int| 0 <= k < i ==> keys@[k] == (#[trigger] ts[k]).position,
        decreases all.len() - i,
    {
        assert(ts[i as int] == *all@[i as int]);
        keys.push(all[i].position);
        i = i + 1;
    }
    if !distinct_u32(&keys) {
        proof {
            let (a, b) = choose|a: int, b: int|
                0 <= a < keys@.len() && 0 <= b < keys@.len() && a != b && keys@[a] == keys@[b];
            assert(track_position()(ts[a]) == track_position()(ts[b]));
        }
        return Err(refusal("Duplicate track positions"));
    }
    assert(distinct_keys(ts, track_position())) by {
        assert forall|a: int, b: int| 0 <= a < ts.len() && 0 <= b < ts.len() && a != b implies track_position()(
            #[trigger] ts[a],
        ) != track_position()(#[trigger] ts[b]) by {
            assert(keys@[a] != keys@[b]);
        }
    }
    let mut i: usize = 0;
    while i < all.len()
        invariant
            i <= all.len(),
            derefs(all@) == ts,
            ts == all_tracks(*m),
            m.position != 0,
            m.tracks@.len() == m.track_count,
            distinct_keys(ts, track_position()),
            forall|k: int| 0 <= k < i ==> identified(#[trigger] ts[k]),
        decreases all.len() - i,
    {
        assert(ts[i as int] == *all@[i as int]);
        let t = all[i];
        let ok = match (mbid(t.id.as_str()), mbid(t.recording.id.as_str())) {
            (Ok(()), Ok(())) => true,
            _ => false,
        };
        if !ok {
            assert(!identified(ts[i as int]));
            return Err(refusal("Invalid MusicBrainz identifier"));
        }
        i = i + 1;
    }
    let order = increasing_order(&keys);
    let ghost sorted = picked(ts, order@);
    proof {
        assert forall|a: int, b: int| 0 <= a < b < sorted.len() implies track_position()(
            #[trigger] sorted[a],
        ) < track_position()(#[trigger] sorted[b]) by {
            assert(sorted[a] == ts[order@[a] as int] && sorted[b] == ts[order@[b] as int]);
            assert(keys@[order@[a] as int] < keys@[order@[b] as int]);
        }
        lemma_picked_by_key(ts, order@, track_position());
    }
    let mut tracks: Vec<Track> = Vec::new();
    let ghost rc = credit_views(release_credits@);
    let ghost want = sorted.map_values(|t: ReleaseTrack| converted_track(t, rc));
    let mut k: usize = 0;
    while k < order.len()
        invariant
            k <= order.len(),
            order@.len() == all@.len(),
            forall|i: int| 0 <= i < order@.len() ==> (#[trigger] order@[i]) < all@.len(),
            derefs(all@) == ts,
            sorted == picked(ts, order@),
            rc == credit_views(release_credits@),
            want == sorted.map_values(|t: ReleaseTrack| converted_track(t, rc)),
            tracks@.map_values(|t: Track| t@) == want.take(k as int),
        decreases order.len() - k,
    {
        let ghost before = tracks@.map_values(|t: Track| t@);
        let idx = order[k];
        assert(order@[k as int] < all@.len());
        assert(sorted[k as int] == *all@[idx as int]);
        let t = convert_track(all[idx], release_credits);
        tracks.push(t);
        assert(tracks@.map_values(|t: Track| t@) =~= before.push(want[k as int]));
        assert(want.take(k + 1) =~= want.take(k as int).push(want[k as int]));
        k = k + 1;
    }
    assert(want.take(order.len() as int) =~= want);
    let out = Medium { position: m.position, tracks };
    assert(out@.tracks =~= want);
    Ok(out)
}

/// The catalog Release of a Release document, or why the document is refused.
pub fn convert_release(r: FullRelease) -> (out: Result<Release, CatalogError>)
    ensures
        match out {
            Ok(v) => release_problem(r) is None && v@ == converted_release(r),
            Err(e) => release_problem(r) matches Some(p) && e matches CatalogError::Other(x) && x@ == p,
        },
{
    let release_ok = match mbid(r.id.as_str()) {
        Ok(()) => true,
        Err(_) => false,
    };
    let group_ok = match mbid(r.group.id.as_str()) {
        Ok(()) => true,
        Err(_) => false,
    };
    if !release_ok || !group_ok {
        return Err(refusal("Invalid MusicBrainz identifier"));
    }
    let ghost ms = r.media@;
    let mut keys: Vec<u32> = Vec::new();
    let mut i: usize = 0;
    while i < r.media.len()
        invariant
            i <= r.media.len(),
            ms == r.media@,
            keys@.len() == i,
            forall|k: int| 0 <= k < i ==> keys@[k] == (#[trigger] ms[k]).position,
        decreases r.media.len() - i,
    {
        keys.push(r.media[i].position);
        i = i + 1;
    }
    if r.media.len() == 0 || !distinct_u32(&keys) {
        proof {
            if ms.len() > 0 {
                let (a, b) = choose|a: int, b: int|
                    0 <= a < keys@.len() && 0 <= b < keys@.len() && a != b && keys@[a] == keys@[b];
                assert(medium_position()(ms[a]) == medium_position()(ms[b]));
            }
        }
        return Err(refusal("Release has missing or duplicate media"));
    }
    assert(distinct_keys(ms, medium_position())) by {
        assert forall|a: int, b: int| 0 <= a < ms.len() && 0 <= b < ms.len() && a != b implies medium_position()(
            #[trigger] ms[a],
        ) != medium_position()(#[trigger] ms[b]) by {
            assert(keys@[a] != keys@[b]);
        }
    }
    let order = increasing_order(&keys);
    let ghost sorted = picked(ms, order@);
    proof {
        assert forall|a: int, b: int| 0 <= a < b < sorted.len() implies medium_position()(
            #[trigger] sorted[a],
        ) < medium_position()(#[trigger] sorted[b]) by {
            assert(sorted[a] == ms[order@[a] as int] && sorted[b] == ms[order@[b] as int]);
            assert(keys@[order@[a] as int] < keys@[order@[b] as int]);
        }
        lemma_picked_by_key(ms, order@, medium_position());
    }
    let release_credits = credits(&r.credits);
    let ghost rc = credit_views(release_credits@);
    let ghost want = sorted.map_values(|m: ReleaseMedium| converted_medium(m, rc));
    let mut media: Vec<Medium> = Vec::new();
    let mut any_tracks = false;
    let mut k: usize = 0;
    assert(sorted.take(0) =~= Seq::<ReleaseMedium>::empty());
    while k < order.len()
        invariant
            k <= order.len(),
            order@.len() == ms.len(),
            ms == r.media@,
            forall|i: int| 0 <= i < order@.len() ==> (#[trigger] order@[i]) < ms.len(),
            sorted == picked(ms, order@),
            rc == credit_views(release_credits@),
            want == sorted.map_values(|m: ReleaseMedium| converted_medium(m, rc)),
            media@.map_values(|m: Medium| m@) == want.take(k as int),
            first_medium_problem(sorted.take(k as int)) is None,
            mbid_shape(r.id@) && mbid_shape(r.group.id@),
            ms.len() > 0,
            distinct_keys(ms, medium_position()),
            media_in_order(r) == sorted,
            any_tracks == exists|x: int| 0 <= x < k && all_tracks(#[trigger] sorted[x]).len() > 0,
        decreases order.len() - k,
    {
        let idx = order[k];
        assert(order@[k as int] < ms.len());
        assert(sorted[k as int] == ms[idx as int]);
        assert(sorted.take(k + 1).drop_last() =~= sorted.take(k as int));
        match convert_medium(&r.media[idx], &release_credits) {
            Ok(m) => {
                let ghost before = media@.map_values(|m: Medium| m@);
                if m.tracks.len() > 0 {
                    any_tracks = true;
                }
                media.push(m);
                assert(media@.map_values(|m: Medium| m@) =~= before.push(want[k as int]));
                assert(want.take(k + 1) =~= want.take(k as int).push(want[k as int]));
            },
            Err(e) => {
                proof {
                    assert(sorted.take(k + 1).last() == sorted[k as int]);
                    assert(first_medium_problem(sorted.take(k + 1)) == medium_problem(sorted[k as int]));
                    lemma_first_problem_stays(sorted, k + 1);
                }
                return Err(e);
            },
        }
        k = k + 1;
    }
    assert(sorted.take(order.len() as int) =~= sorted);
    assert(want.take(order.len() as int) =~= want);
    if !any_tracks {
        return Err(refusal("Release has no Tracks"));
    }
    let album_credits = if r.group.credits.len() == 0 {
        copy_credits(&release_credits)
    } else {
        credits(&r.group.credits)
    };
    let album = Album {
        identity: musicbrainz_identity("release_group", &r.group.id),
        title: r.group.title.clone(),
        date: match &r.group.date {
            Some(d) => d.clone(),
            None => String::new(),
        },
        credits: album_credits,
    };
    let out = Release {
        album,
        identity: musicbrainz_identity("release", &r.id),
        identities: Vec::new(),
        title: r.title.clone(),
        date: match &r.date {
            Some(d) => d.clone(),
            None => String::new(),
        },
        credits: release_credits,
        media,
    };
    assert(out@.identities =~= Seq::<IdentityView>::empty());
    assert(out@.media =~= want);
    Ok(out)
}

// ---------------------------------------------------------------------------
// Edition browse results.

/// A label entry: the label's name and the catalog number, where given.
#[derive(Debug)]
pub struct LabelInfo {
    pub label: Option<String>,
    pub catalog_number: Option<String>,
}

#[derive(Debug)]
pub struct MediaSummary {
    pub format: Option<String>,
    pub track_count: u32,
}

/// A Release as a Release Group's edition browse lists it.
#[derive(Debug)]
pub struct Edition {
    pub id: String,
    pub title: String,
    pub credits: Vec<ArtistCredit>,
    pub date: Option<String>,
    pub country: Option<String>,
    pub status: Option<String>,
    pub disambiguation: Option<String>,
    pub barcode: Option<String>,
    pub labels: Vec<LabelInfo>,
    pub media: Vec<MediaSummary>,
}

/// Name and catalog number, separated by a space, trimmed.
pub open spec fn label_text(l: LabelInfo) -> Seq<char> {
    trimmed(or_empty(l.label) + " "@ + or_empty(l.catalog_number))
}

pub open spec fn media_tracks(media: Seq<MediaSummary>) -> int
    decreases media.len(),
{
    if media.len() == 0 {
        0
    } else {
        media_tracks(media.drop_last()) + media.last().track_count
    }
}

/// Credited names with join phrases, as the catalog displays them.
pub open spec fn credits_display(cs: Seq<ArtistCredit>) -> Seq<char>
    decreases cs.len(),
{
    if cs.len() == 0 {
        Seq::empty()
    } else {
        credits_display(cs.drop_last()) + cs.last().name@ + cs.last().joinphrase@
    }
}

/// The candidate an edition gives.
pub open spec fn edition_candidate(e: Edition, c: ReleaseCandidate) -> bool {
    &&& c.identity@ == mb_identity("release"@, e.id@)
    &&& c.title@ == e.title@
    &&& c.artist@ == credits_display(e.credits@)
    &&& c.date@ == or_empty(e.date)
    &&& c.country@ == or_empty(e.country)
    &&& c.status@ == or_empty(e.status)
    &&& c.comment@ == or_empty(e.disambiguation)
    &&& c.barcode@ == or_empty(e.barcode)
    &&& views(c.labels@) == e.labels@.map_values(|l: LabelInfo| label_text(l))
    &&& c.disc_count == e.media@.len()
    &&& c.track_count == media_tracks(e.media@)
    &&& views(c.formats@) == e.media@.map_values(|m: MediaSummary| or_empty(m.format))
}

fn text_or_empty(s: &Option<String>) -> (r: String)
    ensures
        r@ == or_empty(*s),
{
    match s {
        Some(v) => v.clone(),
        None => String::new(),
    }
}

proof fn lemma_media_tracks_prefix(media: Seq<MediaSummary>, k: int)
    requires
        0 <= k <= media.len(),
    ensures
        media_tracks(media.take(k)) <= media_tracks(media),
    decreases media.len() - k,
{
    if k < media.len() {
        lemma_media_tracks_prefix(media, k + 1);
        assert(media.take(k + 1).drop_last() =~= media.take(k));
    } else {
        assert(media.take(k) =~= media);
    }
}

/// The release candidate of an edition. Its identifier must be a MusicBrainz
/// identifier.
pub fn convert_edition(e: &Edition) -> (r: Result<ReleaseCandidate, CatalogError>)
    requires
        media_tracks(e.media@) <= u32::MAX,
    ensures
        match r {
            Ok(c) => mbid_shape(e.id@) && edition_candidate(*e, c),
            Err(err) => !mbid_shape(e.id@) && (err matches CatalogError::Other(m) && m@
                == "Invalid MusicBrainz identifier"@),
        },
{
    match mbid(e.id.as_str()) {
        Ok(()) => {},
        Err(err) => return Err(err),
    }
    let mut artist: Vec<char> = Vec::new();
    let mut i: usize = 0;
    while i < e.credits.len()
        invariant
            i <= e.credits.len(),
            artist@ == credits_display(e.credits@.take(i as int)),
        decreases e.credits.len() - i,
    {
        append_chars(&mut artist, &chars_of(e.credits[i].name.as_str()));
        append_chars(&mut artist, &chars_of(e.credits[i].joinphrase.as_str()));
        assert(e.credits@.take(i + 1).drop_last() =~= e.credits@.take(i as int));
        i = i + 1;
    }
    assert(e.credits@.take(e.credits.len() as int) =~= e.credits@);
    let mut labels: Vec<String> = Vec::new();
    let ghost want_labels = e.labels@.map_values(|l: LabelInfo| label_text(l));
    let mut i: usize = 0;
    while i < e.labels.len()
        invariant
            i <= e.labels.len(),
            want_labels == e.labels@.map_values(|l: LabelInfo| label_text(l)),
            views(labels@) == want_labels.take(i as int),
        decreases e.labels.len() - i,
    {
        let l = &e.labels[i];
        let mut text = chars_of(text_or_empty(&l.label).as_str());
        append_chars(&mut text, &chars_of(" "));
        append_chars(&mut text, &chars_of(text_or_empty(&l.catalog_number).as_str()));
        let trimmed_text = trim(&text);
        let ghost before = views(labels@);
        labels.push(string_of(trimmed_text.as_slice()));
        assert(views(labels@) =~= before.push(want_labels[i as int]));
        assert(want_labels.take(i + 1) =~= want_labels.take(i as int).push(want_labels[i as int]));
        i = i + 1;
    }
    assert(want_labels.take(e.labels.len() as int) =~= want_labels);
    let mut formats: Vec<String> = Vec::new();
    let ghost want_formats = e.media@.map_values(|m: MediaSummary| or_empty(m.format));
    let mut tracks: u32 = 0;
    let mut i: usize = 0;
    while i < e.media.len()
        invariant
            i <= e.media.len(),
            media_tracks(e.media@) <= u32::MAX,
            want_formats == e.media@.map_values(|m: MediaSummary| or_empty(m.format)),
            views(formats@) == want_formats.take(i as int),
            tracks == media_tracks(e.media@.take(i as int)),
        decreases e.media.len() - i,
    {
        let ghost before = views(formats@);
        formats.push(text_or_empty(&e.media[i].format));
        assert(views(formats@) =~= before.push(want_formats[i as int]));
        assert(want_formats.take(i + 1) =~= want_formats.take(i as int).push(want_formats[i as int]));
        proof {
            assert(e.media@.take(i + 1).drop_last() =~= e.media@.take(i as int));
            lemma_media_tracks_prefix(e.media@, i + 1);
        }
        tracks = tracks + e.media[i].track_count;
        i = i + 1;
    }
    assert(want_formats.take(e.media.len() as int) =~= want_formats);
    assert(e.media@.take(e.media.len() as int) =~= e.media@);
    Ok(
        ReleaseCandidate {
            identity: musicbrainz_identity("release", &e.id),
            title: e.title.clone(),
            artist: string_of(artist.as_slice()),
            date: text_or_empty(&e.date),
            country: text_or_empty(&e.country),
            status: text_or_empty(&e.status),
            comment: text_or_empty(&e.disambiguation),
            barcode: text_or_empty(&e.barcode),
            labels,
            formats,
            disc_count: e.media.len(),
            track_count: tracks,
        },
    )
}

// ---------------------------------------------------------------------------
// Recording search results.

/// What is wrong with a credit of a recording, if anything.
pub open spec fn credit_problem(c: ArtistCredit) -> Option<Seq<char>> {
    match c.artist {
        None => Some("Recording credit lacks Artist identity"@),
        Some(a) => if mbid_shape(a@) {
            None
        } else {
            Some("Invalid MusicBrainz identifier"@)
        },
    }
}

/// The problem of the first credit that has one.
pub open spec fn first_credit_problem(cs: Seq<ArtistCredit>) -> Option<Seq<char>>
    decreases cs.len(),
{
    if cs.len() == 0 {
        None
    } else {
        match first_credit_problem(cs.drop_last()) {
            Some(p) => Some(p),
            None => credit_problem(cs.last()),
        }
    }
}

/// Why a searched recording is refused, if it is.
pub open spec fn recording_refusal(r: TrackRecording) -> Option<Seq<char>> {
    if !mbid_shape(r.id@) {
        Some("Invalid MusicBrainz identifier"@)
    } else {
        first_credit_problem(r.credits@)
    }
}

pub open spec fn recording_candidate_of(r: TrackRecording) -> crate::recording::CandidateView {
    crate::recording::CandidateView {
        identity: mb_identity("recording"@, r.id@),
        title: r.title@,
        artist: credits_display(r.credits@),
        artist_ids: r.credits@.map_values(|c: ArtistCredit| mb_identity("artist"@, c.artist->0@)),
        duration_ms: r.length,
        isrcs: views(r.isrcs@),
    }
}

/// A searched recording as a Recording candidate; every credit must name a
/// MusicBrainz Artist.
pub fn recording_candidate(r: &TrackRecording) -> (out: Result<crate::recording::Candidate, CatalogError>)
    ensures
        match out {
            Ok(c) => recording_refusal(*r) is None && c@ == recording_candidate_of(*r),
            Err(e) => recording_refusal(*r) matches Some(p) && (e matches CatalogError::Other(m) && m@ == p),
        },
{
    if !(match mbid(r.id.as_str()) {
        Ok(()) => true,
        Err(_) => false,
    }) {
        return Err(refusal("Invalid MusicBrainz identifier"));
    }
    let mut ids: Vec<ExternalIdentity> = Vec::new();
    let mut artist: Vec<char> = Vec::new();
    let ghost want = r.credits@.map_values(|c: ArtistCredit| mb_identity("artist"@, c.artist->0@));
    let mut i: usize = 0;
    assert(r.credits@.take(0) =~= Seq::<ArtistCredit>::empty());
    while i < r.credits.len()
        invariant
            i <= r.credits.len(),
            want == r.credits@.map_values(|c: ArtistCredit| mb_identity("artist"@, c.artist->0@)),
            mbid_shape(r.id@),
            first_credit_problem(r.credits@.take(i as int)) is None,
            id_views(ids@) == want.take(i as int),
            artist@ == credits_display(r.credits@.take(i as int)),
        decreases r.credits.len() - i,
    {
        let c = &r.credits[i];
        assert(r.credits@.take(i + 1).drop_last() =~= r.credits@.take(i as int));
        assert(r.credits@.take(i + 1).last() == *c);
        let a = match &c.artist {
            Some(a) => a,
            None => {
                proof {
                    crate::musicbrainz::lemma_first_credit_problem_stays(r.credits@, i + 1);
                }
                return Err(refusal("Recording credit lacks Artist identity"));
            },
        };
        if !(match mbid(a.as_str()) {
            Ok(()) => true,
            Err(_) => false,
        }) {
            proof {
                crate::musicbrainz::lemma_first_credit_problem_stays(r.credits@, i + 1);
            }
            return Err(refusal("Invalid MusicBrainz identifier"));
        }
        let ghost before = id_views(ids@);
        ids.push(musicbrainz_identity("artist", a));
        assert(id_views(ids@) =~= before.push(want[i as int]));
        assert(want.take(i + 1) =~= want.take(i as int).push(want[i as int]));
        append_chars(&mut artist, &chars_of(c.name.as_str()));
        append_chars(&mut artist, &chars_of(c.joinphrase.as_str()));
        i = i + 1;
    }
    assert(want.take(r.credits.len() as int) =~= want);
    assert(r.credits@.take(r.credits.len() as int) =~= r.credits@);
    Ok(
        crate::recording::Candidate {
            identity: musicbrainz_identity("recording", &r.id),
            title: r.title.clone(),
            artist: string_of(artist.as_slice()),
            artist_ids: ids,
            duration_ms: r.length,
            isrcs: crate::domain::copy_strings(r.isrcs.as_slice()),
        },
    )
}

proof fn lemma_first_credit_problem_stays(s: Seq<ArtistCredit>, k: int)
    requires
        0 <= k <= s.len(),
        first_credit_problem(s.take(k)) is Some,
    ensures
        first_credit_problem(s) == first_credit_problem(s.take(k)),
    decreases s.len() - k,
{
    if k < s.len() {
        assert(s.take(k + 1).drop_last() =~= s.take(k));
        lemma_first_credit_problem_stays(s, k + 1);
    } else {
        assert(s.take(k) =~= s);
    }
}

/// A recording search page is complete only when it holds the counted
/// recordings; a shorter page continues after what it holds.
pub fn recording_page_next(count: u32, len: usize) -> (r: Option<u32>)
    ensures
        r == (if count > len {
            Some(len as u32)
        } else {
            None::<u32>
        }),
{
    if (count as usize) > len {
        Some(len as u32)
    } else {
        None
    }
}

} // verus!
