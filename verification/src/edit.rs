//! Bounded Unicode Levenshtein comparison on character sequences.
use vstd::prelude::*;

verus! {

pub open spec fn min2(x: int, y: int) -> int {
    if x <= y {
        x
    } else {
        y
    }
}

/// Levenshtein distance between the first `i` characters of `a` and the
/// first `j` characters of `b` (insertions, deletions, substitutions; no
/// transpositions).
pub open spec fn lev(a: Seq<char>, b: Seq<char>, i: nat, j: nat) -> nat
    decreases i + j,
{
    if i == 0 {
        j
    } else if j == 0 {
        i
    } else {
        let sub = lev(a, b, (i - 1) as nat, (j - 1) as nat) + if a[i - 1] == b[j - 1] {
            0nat
        } else {
            1nat
        };
        let del = lev(a, b, (i - 1) as nat, j) + 1;
        let ins = lev(a, b, i, (j - 1) as nat) + 1;
        min2(min2(sub as int, del as int), ins as int) as nat
    }
}

/// Levenshtein distance of two whole sequences.
pub open spec fn edit_distance(a: Seq<char>, b: Seq<char>) -> nat {
    lev(a, b, a.len(), b.len())
}

/// Whether `a` and `b` are within `limit` edits and both at least `minimum` long.
pub open spec fn within_edits(a: Seq<char>, b: Seq<char>, limit: nat, minimum: nat) -> bool {
    &&& a.len() >= minimum
    &&& b.len() >= minimum
    &&& edit_distance(a, b) <= limit
}

/// The distance does not depend on the order of the two sequences.
pub proof fn lemma_lev_symmetric(a: Seq<char>, b: Seq<char>, i: nat, j: nat)
    ensures
        lev(a, b, i, j) == lev(b, a, j, i),
    decreases i + j,
{
    if i > 0 && j > 0 {
        lemma_lev_symmetric(a, b, (i - 1) as nat, (j - 1) as nat);
        lemma_lev_symmetric(a, b, (i - 1) as nat, j);
        lemma_lev_symmetric(a, b, i, (j - 1) as nat);
    }
}

/// A prefix distance is at least the difference of the prefix lengths.
pub proof fn lemma_lev_at_least_gap(a: Seq<char>, b: Seq<char>, i: nat, j: nat)
    ensures
        lev(a, b, i, j) >= i - j,
        lev(a, b, i, j) >= j - i,
    decreases i + j,
{
    if i > 0 && j > 0 {
        lemma_lev_at_least_gap(a, b, (i - 1) as nat, (j - 1) as nat);
        lemma_lev_at_least_gap(a, b, (i - 1) as nat, j);
        lemma_lev_at_least_gap(a, b, i, (j - 1) as nat);
    }
}

/// If a whole row of prefix distances exceeds the limit, so does the next row.
proof fn lemma_row_exceeds(a: Seq<char>, b: Seq<char>, i: nat, limit: nat, j: nat)
    requires
        j <= b.len(),
        forall|k: nat| k <= b.len() ==> #[trigger] lev(a, b, i, k) > limit,
    ensures
        lev(a, b, i + 1, j) > limit,
    decreases j,
{
    assert(lev(a, b, i, j) > limit);
    if j > 0 {
        lemma_row_exceeds(a, b, i, limit, (j - 1) as nat);
        assert(lev(a, b, i, (j - 1) as nat) > limit);
    }
}

/// If a whole row exceeds the limit, every later row does too.
proof fn lemma_rows_exceed(a: Seq<char>, b: Seq<char>, i: nat, limit: nat, n: nat)
    requires
        i <= n,
        forall|k: nat| k <= b.len() ==> #[trigger] lev(a, b, i, k) > limit,
    ensures
        forall|k: nat| k <= b.len() ==> #[trigger] lev(a, b, n, k) > limit,
    decreases n - i,
{
    if i < n {
        assert forall|k: nat| k <= b.len() implies #[trigger] lev(a, b, i + 1, k) > limit by {
            lemma_row_exceeds(a, b, i, limit, k);
        }
        lemma_rows_exceed(a, b, i + 1, limit, n);
    }
}

/// Values are compared only up to `limit + 1`.
pub open spec fn cap(x: int, limit: nat) -> int {
    min2(x, limit + 1int)
}

/// Banded Levenshtein comparison: whether `a` and `b` are at least `minimum`
/// long, differ in length by at most `limit`, and are within `limit` edits.
pub fn within(a: &Vec<char>, b: &Vec<char>, limit: usize, minimum: usize) -> (r: bool)
    requires
        limit < usize::MAX,
        a@.len() < usize::MAX,
        b@.len() < usize::MAX,
    ensures
        r == within_edits(a@, b@, limit as nat, minimum as nat),
{
    proof {
        lemma_lev_at_least_gap(a@, b@, a@.len(), b@.len());
    }
    let n = a.len();
    let m = b.len();
    let gap = if n >= m {
        n - m
    } else {
        m - n
    };
    if n < minimum || m < minimum || gap > limit {
        return false;
    }
    let mut previous: Vec<usize> = Vec::new();
    let mut k: usize = 0;
    while k <= m
        invariant
            k <= m + 1,
            m == b@.len(),
            m < usize::MAX,
            previous@.len() == k,
            forall|x: int| 0 <= x < k ==> previous@[x] == x,
        decreases m + 1 - k,
    {
        previous.push(k);
        k = k + 1;
    }
    let ghost L = limit as nat;
    assert forall|j: int| 0 <= j <= m implies cap(previous@[j] as int, L) == cap(
        lev(a@, b@, 0, j as nat) as int,
        L,
    ) by {}
    let mut i: usize = 0;
    while i < n
        invariant
            n == a@.len(),
            m == b@.len(),
            i <= n,
            n <= m + limit,
            m <= n + limit,
            n < usize::MAX,
            m < usize::MAX,
            limit < usize::MAX,
            L == limit as nat,
            previous@.len() == m + 1,
            forall|j: int|
                0 <= j <= m ==> cap(#[trigger] previous@[j] as int, L) == cap(
                    lev(a@, b@, i as nat, j as nat) as int,
                    L,
                ),
        decreases n - i,
    {
        let mut current: Vec<usize> = Vec::new();
        let mut k: usize = 0;
        while k <= m
            invariant
                k <= m + 1,
                m < usize::MAX,
                limit < usize::MAX,
                current@.len() == k,
                forall|x: int| 0 <= x < k ==> current@[x] == limit + 1,
            decreases m + 1 - k,
        {
            current.push(limit + 1);
            k = k + 1;
        }
        current.set(0, i + 1);
        let lo = if i >= limit {
            i - limit
        } else {
            0
        };
        let hi = if m > i && m - i > limit {
            i + limit + 1
        } else {
            m
        };
        proof {
            assert forall|j: int| 0 <= j <= m && (j > i + 1 + L || (1 <= j && j <= i - L)) implies (
            #[trigger] lev(a@, b@, (i + 1) as nat, j as nat) > L) by {
                lemma_lev_at_least_gap(a@, b@, (i + 1) as nat, j as nat);
            }
        }
        assert forall|x: int| 0 <= x <= lo implies cap(#[trigger] current@[x] as int, L) == cap(
            lev(a@, b@, (i + 1) as nat, x as nat) as int,
            L,
        ) by {
            if x > 0 {
                assert(x <= i - L);
                assert(lev(a@, b@, (i + 1) as nat, x as nat) > L);
            }
        }
        let mut j = lo;
        while j < hi
            invariant
                n == a@.len(),
                m == b@.len(),
                i < n,
                lo <= j,
                hi <= m,
                lo == (if i >= limit { (i - limit) as usize } else { 0usize }),
                hi == (if m > i && m - i > limit { (i + limit + 1) as usize } else { m }),
                limit < usize::MAX,
                L == limit as nat,
                previous@.len() == m + 1,
                current@.len() == m + 1,
                forall|x: int|
                    0 <= x <= m ==> cap(#[trigger] previous@[x] as int, L) == cap(
                        lev(a@, b@, i as nat, x as nat) as int,
                        L,
                    ),
                forall|x: int|
                    0 <= x <= j ==> cap(#[trigger] current@[x] as int, L) == cap(
                        lev(a@, b@, (i + 1) as nat, x as nat) as int,
                        L,
                    ),
                forall|x: int| j < x <= m ==> #[trigger] current@[x] == limit + 1,
                forall|x: int|
                    0 <= x <= m && (x > i + 1 + L || (1 <= x && x <= i - L)) ==> #[trigger] lev(
                        a@,
                        b@,
                        (i + 1) as nat,
                        x as nat,
                    ) > L,
            decreases hi - j,
        {
            let cost: usize = if a[i] != b[j] {
                1
            } else {
                0
            };
            let sub = previous[j].saturating_add(cost);
            let del = previous[j + 1].saturating_add(1);
            let ins = current[j].saturating_add(1);
            let mut best = sub;
            if del < best {
                best = del;
            }
            if ins < best {
                best = ins;
            }
            proof {
                let ii = (i + 1) as nat;
                let jj = (j + 1) as nat;
                let c: int = if a@[i as int] == b@[j as int] {
                    0
                } else {
                    1
                };
                assert(lev(a@, b@, ii, jj) == min2(
                    min2(lev(a@, b@, i as nat, j as nat) + c, lev(a@, b@, i as nat, jj) + 1int),
                    lev(a@, b@, ii, j as nat) + 1int,
                ));
                assert(cap(previous@[j as int] as int, L) == cap(
                    lev(a@, b@, i as nat, j as nat) as int,
                    L,
                ));
                assert(cap(previous@[j + 1] as int, L) == cap(lev(a@, b@, i as nat, jj) as int, L));
                assert(cap(current@[j as int] as int, L) == cap(lev(a@, b@, ii, j as nat) as int, L));
            }
            current.set(j + 1, best);
            j = j + 1;
        }
        proof {
            assert forall|x: int| 0 <= x <= m implies cap(#[trigger] current@[x] as int, L) == cap(
                lev(a@, b@, (i + 1) as nat, x as nat) as int,
                L,
            ) by {
                if x > j {
                    assert(x > i + 1 + L || (1 <= x && x <= i - L));
                }
            }
        }
        let mut smallest = current[0];
        let mut x: usize = 1;
        while x <= m
            invariant
                1 <= x <= m + 1,
                m < usize::MAX,
                current@.len() == m + 1,
                forall|y: int| 0 <= y < x ==> smallest <= #[trigger] current@[y],
                exists|y: int| 0 <= y < x && smallest == #[trigger] current@[y],
            decreases m + 1 - x,
        {
            if current[x] < smallest {
                smallest = current[x];
            }
            x = x + 1;
        }
        if smallest > limit {
            proof {
                assert forall|k: nat| k <= b@.len() implies #[trigger] lev(
                    a@,
                    b@,
                    (i + 1) as nat,
                    k,
                ) > L by {
                    assert(cap(current@[k as int] as int, L) == cap(
                        lev(a@, b@, (i + 1) as nat, k) as int,
                        L,
                    ));
                }
                lemma_rows_exceed(a@, b@, (i + 1) as nat, L, n as nat);
                assert(lev(a@, b@, n as nat, m as nat) > L);
            }
            return false;
        }
        previous = current;
        i = i + 1;
    }
    assert(cap(previous@[m as int] as int, L) == cap(lev(a@, b@, n as nat, m as nat) as int, L));
    previous[m] <= limit
}

/// A text is no edits away from itself.
pub proof fn lemma_lev_same(a: Seq<char>, i: nat)
    requires
        i <= a.len(),
    ensures
        lev(a, a, i, i) == 0,
    decreases i,
{
    if i > 0 {
        lemma_lev_same(a, (i - 1) as nat);
    }
}

} // verus!
