//! Character-level text primitives shared by every comparator.
//!
//! Text is handled as its sequence of Unicode scalar values. The Unicode
//! lowercase mapping and the Alphabetic/Numeric tables are std's; White_Space
//! is short enough to state, and everything built on top is verified here.
use vstd::prelude::*;

verus! {

/// What `str::to_lowercase` gives for a string.
pub uninterp spec fn lowercase_of(s: Seq<char>) -> Seq<char>;

/// Unicode's White_Space property, which `char::is_whitespace` tests: the
/// ASCII controls TAB through CR, SPACE, NEL, NO-BREAK SPACE, OGHAM SPACE
/// MARK, the spaces EN QUAD through HAIR SPACE, the line and paragraph
/// separators, NARROW NO-BREAK SPACE, MEDIUM MATHEMATICAL SPACE and
/// IDEOGRAPHIC SPACE.
pub open spec fn is_white(c: char) -> bool {
    ('\t' <= c && c <= '\r') || c == ' ' || c == '\u{85}' || c == '\u{a0}' || c == '\u{1680}' || (
    '\u{2000}' <= c && c <= '\u{200a}') || c == '\u{2028}' || c == '\u{2029}' || c == '\u{202f}'
        || c == '\u{205f}' || c == '\u{3000}'
}

/// Whether `char::is_alphanumeric` holds (Unicode Alphabetic or Numeric).
pub uninterp spec fn is_alnum(c: char) -> bool;

/// ASCII whitespace as Unicode's White_Space property lists it.
pub open spec fn ascii_white(c: char) -> bool {
    c == ' ' || ('\t' <= c && c <= '\r')
}

/// ASCII letters and digits.
pub open spec fn ascii_alnum(c: char) -> bool {
    ('a' <= c && c <= 'z') || ('A' <= c && c <= 'Z') || ('0' <= c && c <= '9')
}

/// The ASCII lowercase of a character: `A`-`Z` become `a`-`z`, every other
/// character stays.
pub open spec fn ascii_lower(c: char) -> char {
    if 'A' <= c && c <= 'Z' {
        ((c as u32) + 32) as char
    } else {
        c
    }
}

/// Every character is ASCII.
pub open spec fn all_ascii(s: Seq<char>) -> bool {
    forall|i: int| 0 <= i < s.len() ==> (#[trigger] s[i] as u32) < 128
}

/// `str::to_lowercase`: Unicode lowercase mapping of the whole string.
/// The mapping takes Unicode's tables (and context, for final sigma); the
/// result is named rather than restated, except on ASCII text, where Unicode
/// lowercases exactly the ASCII capitals, as `to_ascii_lowercase` does.
#[verifier::external_body]
pub fn to_lowercase(s: &str) -> (r: String)
    ensures
        r@ == lowercase_of(s@),
        all_ascii(s@) ==> r@ == s@.map_values(|c: char| ascii_lower(c)),
{
    s.to_lowercase()
}

/// Whether `c` is Unicode White_Space. For ASCII it is exactly TAB, LF, VT,
/// FF, CR and SPACE.
pub fn char_is_whitespace(c: char) -> (r: bool)
    ensures
        r == is_white(c),
        (c as u32) < 128 ==> (r <==> ascii_white(c)),
{
    ('\t' <= c && c <= '\r') || c == ' ' || c == '\u{85}' || c == '\u{a0}' || c == '\u{1680}' || (
    '\u{2000}' <= c && c <= '\u{200a}') || c == '\u{2028}' || c == '\u{2029}' || c == '\u{202f}'
        || c == '\u{205f}' || c == '\u{3000}'
}

/// `char::is_alphanumeric`. For ASCII it is exactly the letters and digits.
#[verifier::external_body]
pub fn char_is_alphanumeric(c: char) -> (r: bool)
    ensures
        r == is_alnum(c),
        (c as u32) < 128 ==> (r <==> ascii_alnum(c)),
{
    c.is_alphanumeric()
}

/// `str::chars`, collected. No allocation exceeds `isize::MAX` bytes, so
/// neither does the number of characters.
#[verifier::external_body]
pub fn chars_of(s: &str) -> (r: Vec<char>)
    ensures
        r@ == s@,
        r@.len() <= isize::MAX,
{
    s.chars().collect()
}

/// `String: FromIterator<char>`.
#[verifier::external_body]
pub fn string_of(v: &[char]) -> (r: String)
    ensures
        r@ == v@,
{
    v.iter().collect()
}

/// `str == str`.
#[verifier::external_body]
pub fn str_eq(a: &str, b: &str) -> (r: bool)
    ensures
        r == (a@ == b@),
{
    a == b
}

/// Equality of two character sequences held in vectors.
pub fn chars_eq(a: &Vec<char>, b: &Vec<char>) -> (r: bool)
    ensures
        r == (a@ == b@),
{
    if a.len() != b.len() {
        return false;
    }
    let mut i: usize = 0;
    while i < a.len()
        invariant
            a.len() == b.len(),
            i <= a.len(),
            forall|k: int| 0 <= k < i ==> a@[k] == b@[k],
        decreases a.len() - i,
    {
        if a[i] != b[i] {
            return false;
        }
        i = i + 1;
    }
    assert(a@ =~= b@);
    true
}

/// Whitespace folding, read from the left: runs of White_Space characters
/// become one space between words, and none at either end. The second
/// component records a pending gap after at least one word.
pub open spec fn fold_state(s: Seq<char>) -> (Seq<char>, bool)
    decreases s.len(),
{
    if s.len() == 0 {
        (Seq::empty(), false)
    } else {
        let (out, gap) = fold_state(s.drop_last());
        let c = s.last();
        if is_white(c) {
            (out, out.len() > 0)
        } else {
            ((if gap { out.push(' ') } else { out }).push(c), false)
        }
    }
}

/// The words of `s`, separated by single spaces.
pub open spec fn fold_ws(s: Seq<char>) -> Seq<char> {
    fold_state(s).0
}

/// Fold the whitespace of a character sequence.
pub fn fold_whitespace(v: &Vec<char>) -> (r: Vec<char>)
    ensures
        r@ == fold_ws(v@),
{
    let mut out: Vec<char> = Vec::new();
    let mut gap = false;
    let mut i: usize = 0;
    while i < v.len()
        invariant
            i <= v.len(),
            (out@, gap) == fold_state(v@.take(i as int)),
        decreases v.len() - i,
    {
        let c = v[i];
        assert(v@.take(i + 1).drop_last() =~= v@.take(i as int));
        if char_is_whitespace(c) {
            gap = out.len() > 0;
        } else {
            if gap {
                out.push(' ');
            }
            out.push(c);
            gap = false;
        }
        i = i + 1;
    }
    assert(v@.take(v.len() as int) =~= v@);
    out
}

/// Characters joined with a separator between consecutive parts.
pub open spec fn joined(parts: Seq<Seq<char>>, sep: Seq<char>) -> Seq<char>
    decreases parts.len(),
{
    if parts.len() == 0 {
        Seq::empty()
    } else if parts.len() == 1 {
        parts[0]
    } else {
        joined(parts.drop_last(), sep) + sep + parts.last()
    }
}

/// The character views of a list of strings.
pub open spec fn views(names: Seq<String>) -> Seq<Seq<char>> {
    names.map_values(|s: String| s@)
}

/// Join strings with a separator, as `[String]::join` does.
pub fn join_strings(names: &[String], sep: &str) -> (r: Vec<char>)
    ensures
        r@ == joined(views(names@), sep@),
{
    let sep_chars = chars_of(sep);
    let mut out: Vec<char> = Vec::new();
    let mut i: usize = 0;
    while i < names.len()
        invariant
            i <= names.len(),
            sep_chars@ == sep@,
            out@ == joined(views(names@).take(i as int), sep@),
        decreases names.len() - i,
    {
        let part = chars_of(names[i].as_str());
        let ghost before = out@;
        if i > 0 {
            append_chars(&mut out, &sep_chars);
        }
        append_chars(&mut out, &part);
        proof {
            let t = views(names@).take(i + 1);
            assert(t.drop_last() =~= views(names@).take(i as int));
            assert(t.last() == names@[i as int]@);
            if i == 0 {
                assert(out@ =~= t[0]);
            } else {
                assert(out@ =~= before + sep@ + t.last());
            }
        }
        i = i + 1;
    }
    assert(views(names@).take(names.len() as int) =~= views(names@));
    out
}

/// Append all characters of `extra`.
pub fn append_chars(out: &mut Vec<char>, extra: &Vec<char>)
    ensures
        final(out)@ == old(out)@ + extra@,
{
    let mut j: usize = 0;
    while j < extra.len()
        invariant
            j <= extra.len(),
            out@ == old(out)@ + extra@.take(j as int),
        decreases extra.len() - j,
    {
        out.push(extra[j]);
        j = j + 1;
        assert(out@ =~= old(out)@ + extra@.take(j as int));
    }
    assert(extra@.take(extra.len() as int) =~= extra@);
}

/// Splitting at characters that are not alphanumeric, read from the left:
/// completed words and the word in progress.
pub open spec fn split_state(s: Seq<char>) -> (Seq<Seq<char>>, Seq<char>)
    decreases s.len(),
{
    if s.len() == 0 {
        (Seq::empty(), Seq::empty())
    } else {
        let (done, cur) = split_state(s.drop_last());
        let c = s.last();
        if is_alnum(c) {
            (done, cur.push(c))
        } else {
            (if cur.len() > 0 { done.push(cur) } else { done }, Seq::empty())
        }
    }
}

/// The nonempty maximal runs of alphanumeric characters, in order.
pub open spec fn alnum_words(s: Seq<char>) -> Seq<Seq<char>> {
    let (done, cur) = split_state(s);
    if cur.len() > 0 {
        done.push(cur)
    } else {
        done
    }
}

/// The views of a list of character vectors.
pub open spec fn vviews(v: Seq<Vec<char>>) -> Seq<Seq<char>> {
    v.map_values(|w: Vec<char>| w@)
}

/// Split at every character that is not alphanumeric, dropping empty pieces.
pub fn split_alnum_words(v: &Vec<char>) -> (r: Vec<Vec<char>>)
    ensures
        vviews(r@) == alnum_words(v@),
{
    let mut done: Vec<Vec<char>> = Vec::new();
    let mut cur: Vec<char> = Vec::new();
    let mut i: usize = 0;
    while i < v.len()
        invariant
            i <= v.len(),
            (vviews(done@), cur@) == split_state(v@.take(i as int)),
        decreases v.len() - i,
    {
        let c = v[i];
        assert(v@.take(i + 1).drop_last() =~= v@.take(i as int));
        if char_is_alphanumeric(c) {
            cur.push(c);
        } else {
            if cur.len() > 0 {
                let ghost before = vviews(done@);
                let word = cur;
                done.push(word);
                assert(vviews(done@) =~= before.push(word@));
            }
            cur = Vec::new();
        }
        i = i + 1;
    }
    assert(v@.take(v.len() as int) =~= v@);
    if cur.len() > 0 {
        let ghost before = vviews(done@);
        let word = cur;
        done.push(word);
        assert(vviews(done@) =~= before.push(word@));
    }
    done
}

/// Equality of two lists of character sequences.
pub fn words_eq(a: &Vec<Vec<char>>, b: &Vec<Vec<char>>) -> (r: bool)
    ensures
        r == (vviews(a@) == vviews(b@)),
{
    if a.len() != b.len() {
        assert(vviews(a@).len() != vviews(b@).len());
        return false;
    }
    let mut i: usize = 0;
    while i < a.len()
        invariant
            a.len() == b.len(),
            i <= a.len(),
            forall|k: int| 0 <= k < i ==> a@[k]@ == b@[k]@,
        decreases a.len() - i,
    {
        if !chars_eq(&a[i], &b[i]) {
            assert(vviews(a@)[i as int] != vviews(b@)[i as int]);
            return false;
        }
        i = i + 1;
    }
    assert(vviews(a@) =~= vviews(b@));
    true
}

/// Leading White_Space removed.
pub open spec fn trim_start(s: Seq<char>) -> Seq<char>
    decreases s.len(),
{
    if s.len() > 0 && is_white(s[0]) {
        trim_start(s.drop_first())
    } else {
        s
    }
}

/// Trailing White_Space removed.
pub open spec fn trim_end(s: Seq<char>) -> Seq<char>
    decreases s.len(),
{
    if s.len() > 0 && is_white(s.last()) {
        trim_end(s.drop_last())
    } else {
        s
    }
}

/// Leading and trailing White_Space removed, as `str::trim` does.
pub open spec fn trimmed(s: Seq<char>) -> Seq<char> {
    trim_end(trim_start(s))
}

/// `s` ends with `suffix`.
pub open spec fn ends_with(s: Seq<char>, suffix: Seq<char>) -> bool {
    suffix.len() <= s.len() && s.skip(s.len() - suffix.len()) == suffix
}

/// `s` starts with `prefix`.
pub open spec fn starts_with(s: Seq<char>, prefix: Seq<char>) -> bool {
    prefix.len() <= s.len() && s.take(prefix.len() as int) == prefix
}

/// Remove leading and trailing White_Space.
pub fn trim(v: &Vec<char>) -> (r: Vec<char>)
    ensures
        r@ == trimmed(v@),
{
    let mut lo: usize = 0;
    assert(v@.skip(0) =~= v@);
    while lo < v.len() && char_is_whitespace(v[lo]) == true
        invariant
            lo <= v.len(),
            trim_start(v@.skip(lo as int)) == trim_start(v@),
        decreases v.len() - lo,
    {
        assert(v@.skip(lo as int).drop_first() =~= v@.skip(lo + 1));
        lo = lo + 1;
    }
    let ghost front = v@.skip(lo as int);
    assert(trim_start(front) == front);
    let mut hi: usize = v.len();
    assert(front.take(hi - lo) =~= front);
    while hi > lo && char_is_whitespace(v[hi - 1]) == true
        invariant
            lo <= hi <= v.len(),
            front == v@.skip(lo as int),
            trim_end(front.take(hi - lo)) == trim_end(front),
        decreases hi,
    {
        assert(front.take(hi - lo).drop_last() =~= front.take(hi - 1 - lo));
        hi = hi - 1;
    }
    assert(trim_end(front.take(hi - lo)) == front.take(hi - lo));
    let mut out: Vec<char> = Vec::new();
    let mut i = lo;
    while i < hi
        invariant
            lo <= i <= hi,
            hi <= v.len(),
            out@ == v@.subrange(lo as int, i as int),
        decreases hi - i,
    {
        out.push(v[i]);
        i = i + 1;
        assert(out@ =~= v@.subrange(lo as int, i as int));
    }
    assert(out@ =~= front.take(hi - lo));
    out
}

/// Whether `v` ends with `suffix`.
pub fn has_suffix(v: &Vec<char>, suffix: &Vec<char>) -> (r: bool)
    ensures
        r == ends_with(v@, suffix@),
{
    if suffix.len() > v.len() {
        return false;
    }
    let start = v.len() - suffix.len();
    let mut k: usize = 0;
    while k < suffix.len()
        invariant
            start == v.len() - suffix.len(),
            k <= suffix.len(),
            forall|m: int| 0 <= m < k ==> v@[start + m] == suffix@[m],
        decreases suffix.len() - k,
    {
        if v[start + k] != suffix[k] {
            assert(v@.skip(start as int)[k as int] != suffix@[k as int]);
            return false;
        }
        k = k + 1;
    }
    assert(v@.skip(start as int) =~= suffix@);
    true
}

/// `v` without its last `n` characters.
pub fn drop_tail(v: &Vec<char>, n: usize) -> (r: Vec<char>)
    requires
        n <= v@.len(),
    ensures
        r@ == v@.take(v@.len() - n),
{
    let mut out: Vec<char> = Vec::new();
    let end = v.len() - n;
    let mut i: usize = 0;
    while i < end
        invariant
            end == v.len() - n,
            i <= end,
            out@ == v@.take(i as int),
        decreases end - i,
    {
        out.push(v[i]);
        i = i + 1;
        assert(out@ =~= v@.take(i as int));
    }
    out
}

/// One step of filtering a growing prefix.
pub proof fn lemma_filter_step<A>(s: Seq<A>, p: spec_fn(A) -> bool, i: int)
    requires
        0 <= i < s.len(),
    ensures
        s.take(i + 1).filter(p) == (if p(s[i]) {
            s.take(i).filter(p).push(s[i])
        } else {
            s.take(i).filter(p)
        }),
{
    reveal(Seq::filter);
    assert(s.take(i + 1).drop_last() =~= s.take(i));
}

/// Filtering the empty prefix.
pub proof fn lemma_filter_empty<A>(s: Seq<A>, p: spec_fn(A) -> bool)
    ensures
        s.take(0).filter(p) == Seq::<A>::empty(),
{
    reveal(Seq::filter);
    assert(s.take(0) =~= Seq::<A>::empty());
}

/// Lexicographic order of code points (the order of `str`'s `Ord`, since
/// UTF-8 preserves code point order byte by byte).
pub open spec fn lex_lt(a: Seq<char>, b: Seq<char>) -> bool
    decreases a.len(),
{
    if b.len() == 0 {
        false
    } else if a.len() == 0 {
        true
    } else if a[0] != b[0] {
        a[0] < b[0]
    } else {
        lex_lt(a.drop_first(), b.drop_first())
    }
}

/// `lex_lt` is a strict total order.
pub proof fn lemma_lex_order(a: Seq<char>, b: Seq<char>, c: Seq<char>)
    ensures
        !lex_lt(a, a),
        lex_lt(a, b) ==> !lex_lt(b, a),
        lex_lt(a, b) && lex_lt(b, c) ==> lex_lt(a, c),
        a != b ==> lex_lt(a, b) || lex_lt(b, a),
    decreases a.len(),
{
    if a.len() > 0 && b.len() > 0 && c.len() > 0 {
        lemma_lex_order(a.drop_first(), b.drop_first(), c.drop_first());
    } else if a.len() > 0 && b.len() > 0 {
        lemma_lex_order(a.drop_first(), b.drop_first(), b.drop_first());
    } else if a.len() > 0 {
        lemma_lex_order(a.drop_first(), a.drop_first(), a.drop_first());
    }
    if a.len() > 0 && b.len() > 0 && a[0] == b[0] && a.drop_first() == b.drop_first() {
        assert forall|i: int| 0 <= i < a.len() implies a[i] == b[i] by {
            if i > 0 {
                assert(a[i] == a.drop_first()[i - 1]);
                assert(b[i] == b.drop_first()[i - 1]);
            }
        }
        assert(a =~= b);
    }
    if a.len() == 0 && b.len() == 0 {
        assert(a =~= b);
    }
}

/// Whether `a` orders strictly before `b`.
pub fn lex_less(a: &Vec<char>, b: &Vec<char>) -> (r: bool)
    ensures
        r == lex_lt(a@, b@),
{
    let mut i: usize = 0;
    assert(a@.skip(0) =~= a@);
    assert(b@.skip(0) =~= b@);
    while i < a.len() && i < b.len()
        invariant
            i <= a.len(),
            i <= b.len(),
            lex_lt(a@.skip(i as int), b@.skip(i as int)) == lex_lt(a@, b@),
        decreases a.len() - i,
    {
        if a[i] != b[i] {
            return a[i] < b[i];
        }
        assert(a@.skip(i as int).drop_first() =~= a@.skip(i + 1));
        assert(b@.skip(i as int).drop_first() =~= b@.skip(i + 1));
        i = i + 1;
    }
    i < b.len()
}

pub open spec fn is_digit(c: char) -> bool {
    '0' <= c && c <= '9'
}

/// Decimal value of a string of ASCII digits.
pub open spec fn digits_value(s: Seq<char>) -> nat
    decreases s.len(),
{
    if s.len() == 0 {
        0
    } else {
        digits_value(s.drop_last()) * 10 + ((s.last() as u32) - ('0' as u32)) as nat
    }
}

pub open spec fn all_digits(s: Seq<char>) -> bool {
    forall|i: int| 0 <= i < s.len() ==> is_digit(#[trigger] s[i])
}

/// `u64::from_str`: an optional `+`, then at least one ASCII digit, in range.
pub open spec fn parsed_u64(s: Seq<char>) -> Option<u64> {
    let d = if s.len() > 0 && s[0] == '+' {
        s.drop_first()
    } else {
        s
    };
    if d.len() > 0 && all_digits(d) && digits_value(d) <= u64::MAX {
        Some(digits_value(d) as u64)
    } else {
        None
    }
}

/// Parse an unsigned decimal as `u64::from_str` does.
pub fn parse_u64(v: &Vec<char>) -> (r: Option<u64>)
    ensures
        r == parsed_u64(v@),
{
    let start: usize = if v.len() > 0 && v[0] == '+' {
        1
    } else {
        0
    };
    let ghost d = if v@.len() > 0 && v@[0] == '+' {
        v@.drop_first()
    } else {
        v@
    };
    assert(d =~= v@.skip(start as int));
    if start >= v.len() {
        return None;
    }
    let mut value: u64 = 0;
    let mut i = start;
    while i < v.len()
        invariant
            start <= i <= v.len(),
            d == v@.skip(start as int),
            d == (if v@.len() > 0 && v@[0] == '+' {
                v@.drop_first()
            } else {
                v@
            }),
            all_digits(d.take(i - start)),
            value as nat == digits_value(d.take(i - start)),
        decreases v.len() - i,
    {
        let c = v[i];
        assert(d.take(i + 1 - start).drop_last() =~= d.take(i - start));
        assert(d.take(i + 1 - start).last() == c);
        assert(d[i - start] == c);
        if c < '0' || c > '9' {
            assert(!is_digit(d[i - start]));
            assert(!all_digits(d));
            return None;
        }
        let digit = (c as u32 - '0' as u32) as u64;
        match value.checked_mul(10) {
            None => {
                proof {
                    if all_digits(d) {
                        lemma_digits_prefix_bound(d, (i - start) as nat);
                    }
                }
                return None;
            },
            Some(m) => match m.checked_add(digit) {
                None => {
                    proof {
                        if all_digits(d) {
                            lemma_digits_prefix_bound(d, (i + 1 - start) as nat);
                        }
                    }
                    return None;
                },
                Some(n) => {
                    value = n;
                },
            },
        }
        i = i + 1;
        assert(all_digits(d.take(i - start)));
    }
    assert(d.take(v.len() - start) =~= d);
    Some(value)
}

/// A prefix of digits never has a larger value than the whole.
proof fn lemma_digits_prefix_bound(d: Seq<char>, k: nat)
    requires
        k <= d.len(),
        all_digits(d),
    ensures
        digits_value(d.take(k as int)) <= digits_value(d),
        k < d.len() ==> digits_value(d.take(k as int)) * 10 <= digits_value(d),
    decreases d.len() - k,
{
    if k < d.len() {
        lemma_digits_prefix_bound(d, k + 1);
        assert(d.take((k + 1) as int).drop_last() =~= d.take(k as int));
        assert(is_digit(d[k as int]));
    } else {
        assert(d.take(k as int) =~= d);
    }
}

/// Splitting at White_Space characters, read from the left: completed words
/// and the word in progress.
pub open spec fn ws_split_state(s: Seq<char>) -> (Seq<Seq<char>>, Seq<char>)
    decreases s.len(),
{
    if s.len() == 0 {
        (Seq::empty(), Seq::empty())
    } else {
        let (done, cur) = ws_split_state(s.drop_last());
        let c = s.last();
        if !is_white(c) {
            (done, cur.push(c))
        } else {
            (if cur.len() > 0 { done.push(cur) } else { done }, Seq::empty())
        }
    }
}

/// The words of `s` as `str::split_whitespace` gives them: the nonempty
/// maximal runs of characters that are not White_Space, in order.
pub open spec fn ws_words(s: Seq<char>) -> Seq<Seq<char>> {
    let (done, cur) = ws_split_state(s);
    if cur.len() > 0 {
        done.push(cur)
    } else {
        done
    }
}

/// Split at White_Space, dropping empty pieces.
pub fn split_whitespace(v: &Vec<char>) -> (r: Vec<Vec<char>>)
    ensures
        vviews(r@) == ws_words(v@),
{
    let mut done: Vec<Vec<char>> = Vec::new();
    let mut cur: Vec<char> = Vec::new();
    let mut i: usize = 0;
    while i < v.len()
        invariant
            i <= v.len(),
            (vviews(done@), cur@) == ws_split_state(v@.take(i as int)),
        decreases v.len() - i,
    {
        let c = v[i];
        assert(v@.take(i + 1).drop_last() =~= v@.take(i as int));
        if !char_is_whitespace(c) {
            cur.push(c);
        } else {
            if cur.len() > 0 {
                let ghost before = vviews(done@);
                let word = cur;
                done.push(word);
                assert(vviews(done@) =~= before.push(word@));
            }
            cur = Vec::new();
        }
        i = i + 1;
    }
    assert(v@.take(v.len() as int) =~= v@);
    if cur.len() > 0 {
        let ghost before = vviews(done@);
        let word = cur;
        done.push(word);
        assert(vviews(done@) =~= before.push(word@));
    }
    done
}

/// Join character sequences with one separator character between them.
pub fn join_words(parts: &Vec<Vec<char>>, sep: char) -> (r: Vec<char>)
    ensures
        r@ == joined(vviews(parts@), seq![sep]),
{
    let mut out: Vec<char> = Vec::new();
    let mut i: usize = 0;
    while i < parts.len()
        invariant
            i <= parts.len(),
            out@ == joined(vviews(parts@).take(i as int), seq![sep]),
        decreases parts.len() - i,
    {
        let ghost before = out@;
        if i > 0 {
            out.push(sep);
        }
        append_chars(&mut out, &parts[i]);
        proof {
            let t = vviews(parts@).take(i + 1);
            assert(t.drop_last() =~= vviews(parts@).take(i as int));
            assert(t.last() == parts@[i as int]@);
            if i == 0 {
                assert(out@ =~= t[0]);
            } else {
                assert(out@ =~= before + seq![sep] + t.last());
            }
        }
        i = i + 1;
    }
    assert(vviews(parts@).take(parts.len() as int) =~= vviews(parts@));
    out
}

/// Each value at its first occurrence, in order.
pub open spec fn first_occurrences<A>(s: Seq<A>) -> Seq<A>
    decreases s.len(),
{
    if s.len() == 0 {
        Seq::empty()
    } else {
        let d = first_occurrences(s.drop_last());
        if d.contains(s.last()) {
            d
        } else {
            d.push(s.last())
        }
    }
}

/// The first occurrences hold exactly the values of the sequence, each once.
pub proof fn lemma_first_occurrences<A>(s: Seq<A>)
    ensures
        forall|x: A| #[trigger] first_occurrences(s).contains(x) <==> s.contains(x),
        first_occurrences(s).no_duplicates(),
        first_occurrences(s).len() <= s.len(),
    decreases s.len(),
{
    if s.len() > 0 {
        let rest = s.drop_last();
        lemma_first_occurrences(rest);
        let d = first_occurrences(rest);
        let last = s.last();
        assert forall|x: A| #[trigger] first_occurrences(s).contains(x) <==> s.contains(x) by {
            if s.contains(x) {
                let i = choose|i: int| 0 <= i < s.len() && s[i] == x;
                if i < s.len() - 1 {
                    assert(rest[i] == s[i]);
                    assert(rest.contains(x));
                    assert(d.contains(x));
                    if !d.contains(last) {
                        let k = choose|k: int| 0 <= k < d.len() && d[k] == x;
                        assert(d.push(last)[k] == x);
                    }
                } else {
                    assert(x == last);
                    if !d.contains(last) {
                        assert(d.push(last)[d.len() as int] == x);
                    }
                }
            }
            if first_occurrences(s).contains(x) {
                if d.contains(x) {
                    assert(rest.contains(x));
                    let i = choose|i: int| 0 <= i < rest.len() && rest[i] == x;
                    assert(s[i] == x);
                } else {
                    let k = choose|k: int|
                        0 <= k < first_occurrences(s).len() && first_occurrences(s)[k] == x;
                    if k < d.len() {
                        assert(d.push(last)[k] == d[k]);
                    }
                    assert(x == last);
                    assert(s[s.len() - 1] == x);
                }
            }
        }
        if !d.contains(last) {
            assert forall|i: int, j: int|
                0 <= i < d.push(last).len() && 0 <= j < d.push(last).len() && i != j implies d.push(
                last,
            )[i] != d.push(last)[j] by {
                if i == d.len() {
                    assert(d[j] == d.push(last)[j]);
                } else if j == d.len() {
                    assert(d[i] == d.push(last)[i]);
                }
            }
        }
    }
}

} // verus!
