//! Strict total orders and the ascending lists they determine.
use vstd::prelude::*;

verus! {

/// `lt` is irreflexive, transitive and relates any two distinct values.
pub open spec fn strict_total<T>(lt: spec_fn(T, T) -> bool) -> bool {
    &&& forall|x: T| !#[trigger] lt(x, x)
    &&& forall|x: T, y: T, z: T| #[trigger] lt(x, y) && #[trigger] lt(y, z) ==> lt(x, z)
    &&& forall|x: T, y: T| #![trigger lt(x, y)] #![trigger lt(y, x)] x != y ==> lt(x, y) || lt(y, x)
}

/// Every value of `s` orders strictly before every later one.
pub open spec fn ascending<T>(s: Seq<T>, lt: spec_fn(T, T) -> bool) -> bool {
    forall|i: int, j: int| 0 <= i < j < s.len() ==> lt(#[trigger] s[i], #[trigger] s[j])
}

/// The ascending list of a finite set's values.
pub open spec fn ascending_list<T>(values: Set<T>, lt: spec_fn(T, T) -> bool) -> Seq<T> {
    choose|s: Seq<T>| ascending(s, lt) && s.to_set() == values
}

/// Two ascending lists of the same values are equal.
pub proof fn lemma_ascending_unique<T>(a: Seq<T>, b: Seq<T>, lt: spec_fn(T, T) -> bool)
    requires
        strict_total(lt),
        ascending(a, lt),
        ascending(b, lt),
        a.to_set() == b.to_set(),
    ensures
        a == b,
    decreases a.len(),
{
    if a.len() == 0 {
        if b.len() > 0 {
            assert(b.to_set().contains(b[0]));
        }
        assert(a =~= b);
    } else {
        assert(a.to_set().contains(a[0]));
        assert(b.to_set().contains(b[0]));
        let k = choose|k: int| 0 <= k < b.len() && b[k] == a[0];
        let m = choose|m: int| 0 <= m < a.len() && a[m] == b[0];
        if a[0] != b[0] {
            assert(k > 0 && m > 0);
            assert(lt(b[0], b[k]));
            assert(lt(a[0], a[m]));
            assert(lt(a[0], a[0]));
        }
        let a1 = a.drop_first();
        let b1 = b.drop_first();
        assert forall|x: T| #[trigger] a1.to_set().contains(x) <==> b1.to_set().contains(x) by {
            if a1.to_set().contains(x) {
                let j = choose|j: int| 0 <= j < a1.len() && a1[j] == x;
                assert(a[j + 1] == x);
                assert(lt(a[0], a[j + 1]));
                assert(a.to_set().contains(x));
                let i = choose|i: int| 0 <= i < b.len() && b[i] == x;
                assert(i != 0);
                assert(b1[i - 1] == x);
            }
            if b1.to_set().contains(x) {
                let j = choose|j: int| 0 <= j < b1.len() && b1[j] == x;
                assert(b[j + 1] == x);
                assert(lt(b[0], b[j + 1]));
                assert(b.to_set().contains(x));
                let i = choose|i: int| 0 <= i < a.len() && a[i] == x;
                assert(i != 0);
                assert(a1[i - 1] == x);
            }
        }
        assert(a1.to_set() =~= b1.to_set());
        assert(ascending(a1, lt)) by {
            assert forall|i: int, j: int| 0 <= i < j < a1.len() implies lt(
                #[trigger] a1[i],
                #[trigger] a1[j],
            ) by {
                assert(a1[i] == a[i + 1] && a1[j] == a[j + 1]);
            }
        }
        assert(ascending(b1, lt)) by {
            assert forall|i: int, j: int| 0 <= i < j < b1.len() implies lt(
                #[trigger] b1[i],
                #[trigger] b1[j],
            ) by {
                assert(b1[i] == b[i + 1] && b1[j] == b[j + 1]);
            }
        }
        lemma_ascending_unique(a1, b1, lt);
        assert forall|i: int| 0 <= i < a.len() implies a[i] == b[i] by {
            if i > 0 {
                assert(a[i] == a1[i - 1]);
                assert(b[i] == b1[i - 1]);
            }
        }
        assert(a =~= b);
    }
}

/// An ascending list of a set's values is the set's ascending list.
pub proof fn lemma_is_ascending_list<T>(s: Seq<T>, values: Set<T>, lt: spec_fn(T, T) -> bool)
    requires
        strict_total(lt),
        ascending(s, lt),
        s.to_set() == values,
    ensures
        ascending_list(values, lt) == s,
{
    let c = ascending_list(values, lt);
    assert(ascending(c, lt) && c.to_set() == values);
    lemma_ascending_unique(c, s, lt);
}

/// Inserting a value at the place where it belongs keeps a list ascending.
pub proof fn lemma_ascending_insert<T>(s: Seq<T>, pos: int, x: T, lt: spec_fn(T, T) -> bool)
    requires
        strict_total(lt),
        ascending(s, lt),
        0 <= pos <= s.len(),
        forall|i: int| 0 <= i < pos ==> lt(#[trigger] s[i], x),
        pos < s.len() ==> lt(x, s[pos]),
    ensures
        ascending(s.insert(pos, x), lt),
        s.insert(pos, x).to_set() == s.to_set().insert(x),
{
    let t = s.insert(pos, x);
    assert forall|a: int, b: int| 0 <= a < b < t.len() implies lt(#[trigger] t[a], #[trigger] t[b]) by {
        if b < pos {
        } else if b == pos {
            assert(t[a] == s[a]);
        } else if a < pos {
            assert(t[a] == s[a] && t[b] == s[b - 1]);
            if b - 1 > pos {
                assert(lt(s[pos], s[b - 1]));
                assert(lt(x, s[b - 1]));
            }
            assert(lt(x, s[b - 1]));
        } else if a == pos {
            assert(t[b] == s[b - 1]);
            if b - 1 > pos {
                assert(lt(s[pos], s[b - 1]));
            }
        } else {
            assert(t[a] == s[a - 1] && t[b] == s[b - 1]);
        }
    }
    assert forall|y: T| #[trigger] t.to_set().contains(y) <==> s.to_set().insert(x).contains(y) by {
        if t.to_set().contains(y) {
            let k = choose|k: int| 0 <= k < t.len() && t[k] == y;
            if k < pos {
                assert(s[k] == y);
            } else if k > pos {
                assert(s[k - 1] == y);
            }
        }
        if s.to_set().contains(y) {
            let k = choose|k: int| 0 <= k < s.len() && s[k] == y;
            if k < pos {
                assert(t[k] == y);
            } else {
                assert(t[k + 1] == y);
            }
        }
        if y == x {
            assert(t[pos] == y);
        }
    }
    assert(t.to_set() =~= s.to_set().insert(x));
}

/// An ascending list holds each value once.
pub proof fn lemma_ascending_distinct<T>(s: Seq<T>, lt: spec_fn(T, T) -> bool)
    requires
        strict_total(lt),
        ascending(s, lt),
    ensures
        s.no_duplicates(),
        s.to_set().len() == s.len(),
{
    assert forall|i: int, j: int| 0 <= i < s.len() && 0 <= j < s.len() && i != j implies s[i]
        != s[j] by {
        if i < j {
            assert(lt(s[i], s[j]));
        } else {
            assert(lt(s[j], s[i]));
        }
    }
    s.unique_seq_to_set();
}

/// The keys of `s` strictly increase.
pub open spec fn increasing_by<T>(s: Seq<T>, key: spec_fn(T) -> int) -> bool {
    forall|i: int, j: int| 0 <= i < j < s.len() ==> key(#[trigger] s[i]) < key(#[trigger] s[j])
}

/// No two values of `s` have the same key.
pub open spec fn distinct_keys<T>(s: Seq<T>, key: spec_fn(T) -> int) -> bool {
    forall|i: int, j: int| 0 <= i < s.len() && 0 <= j < s.len() && i != j ==> key(#[trigger] s[i]) != key(#[trigger] s[j])
}

/// The values of `s` by increasing key (meaningful where the keys are distinct).
pub open spec fn by_key<T>(s: Seq<T>, key: spec_fn(T) -> int) -> Seq<T> {
    choose|r: Seq<T>| increasing_by(r, key) && r.to_set() == s.to_set()
}

/// Two lists with increasing keys and the same values are equal.
pub proof fn lemma_keyed_unique<T>(a: Seq<T>, b: Seq<T>, key: spec_fn(T) -> int)
    requires
        increasing_by(a, key),
        increasing_by(b, key),
        a.to_set() == b.to_set(),
    ensures
        a == b,
    decreases a.len(),
{
    if a.len() == 0 {
        if b.len() > 0 {
            assert(b.to_set().contains(b[0]));
        }
        assert(a =~= b);
    } else {
        assert(a.to_set().contains(a[0]));
        assert(b.to_set().contains(b[0]));
        let k = choose|k: int| 0 <= k < b.len() && b[k] == a[0];
        let m = choose|m: int| 0 <= m < a.len() && a[m] == b[0];
        if k > 0 {
            assert(key(b[0]) < key(b[k]));
            if m > 0 {
                assert(key(a[0]) < key(a[m]));
            }
            assert(false);
        }
        let a1 = a.drop_first();
        let b1 = b.drop_first();
        assert forall|x: T| #[trigger] a1.to_set().contains(x) <==> b1.to_set().contains(x) by {
            if a1.to_set().contains(x) {
                let j = choose|j: int| 0 <= j < a1.len() && a1[j] == x;
                assert(a[j + 1] == x);
                assert(key(a[0]) < key(a[j + 1]));
                assert(a.to_set().contains(x));
                let i = choose|i: int| 0 <= i < b.len() && b[i] == x;
                assert(i != 0);
                assert(b1[i - 1] == x);
            }
            if b1.to_set().contains(x) {
                let j = choose|j: int| 0 <= j < b1.len() && b1[j] == x;
                assert(b[j + 1] == x);
                assert(key(b[0]) < key(b[j + 1]));
                assert(b.to_set().contains(x));
                let i = choose|i: int| 0 <= i < a.len() && a[i] == x;
                assert(i != 0);
                assert(a1[i - 1] == x);
            }
        }
        assert(a1.to_set() =~= b1.to_set());
        assert(increasing_by(a1, key)) by {
            assert forall|i: int, j: int| 0 <= i < j < a1.len() implies key(#[trigger] a1[i]) < key(
                #[trigger] a1[j],
            ) by {
                assert(a1[i] == a[i + 1] && a1[j] == a[j + 1]);
            }
        }
        assert(increasing_by(b1, key)) by {
            assert forall|i: int, j: int| 0 <= i < j < b1.len() implies key(#[trigger] b1[i]) < key(
                #[trigger] b1[j],
            ) by {
                assert(b1[i] == b[i + 1] && b1[j] == b[j + 1]);
            }
        }
        lemma_keyed_unique(a1, b1, key);
        assert forall|i: int| 0 <= i < a.len() implies a[i] == b[i] by {
            if i > 0 {
                assert(a[i] == a1[i - 1]);
                assert(b[i] == b1[i - 1]);
            }
        }
        assert(a =~= b);
    }
}

/// The values of `s` picked in the given order of its positions.
pub open spec fn picked<T>(s: Seq<T>, order: Seq<usize>) -> Seq<T> {
    order.map_values(|i: usize| s[i as int])
}

/// A permutation of the positions that puts the keys in increasing order
/// picks the values by key.
pub proof fn lemma_picked_by_key<T>(s: Seq<T>, order: Seq<usize>, key: spec_fn(T) -> int)
    requires
        s.len() <= usize::MAX,
        forall|i: int| 0 <= i < order.len() ==> (#[trigger] order[i]) < s.len(),
        forall|j: usize| j < s.len() ==> #[trigger] order.contains(j),
        increasing_by(picked(s, order), key),
    ensures
        by_key(s, key) == picked(s, order),
{
    let p = picked(s, order);
    assert forall|x: T| #[trigger] p.to_set().contains(x) <==> s.to_set().contains(x) by {
        if p.to_set().contains(x) {
            let i = choose|i: int| 0 <= i < p.len() && p[i] == x;
            assert(s[order[i] as int] == x);
        }
        if s.to_set().contains(x) {
            let j = choose|j: int| 0 <= j < s.len() && s[j] == x;
            assert(order.contains(j as usize));
            let i = choose|i: int| 0 <= i < order.len() && order[i] == j as usize;
            assert(order[i] as int == j);
            assert(p[i] == x);
        }
    }
    assert(p.to_set() =~= s.to_set());
    let c = by_key(s, key);
    assert(increasing_by(c, key) && c.to_set() == s.to_set());
    lemma_keyed_unique(c, p, key);
}

/// The positions of `keys` by increasing key.
pub fn increasing_order(keys: &Vec<u32>) -> (order: Vec<usize>)
    requires
        forall|i: int, j: int|
            0 <= i < keys@.len() && 0 <= j < keys@.len() && i != j ==> keys@[i] != keys@[j],
    ensures
        order@.len() == keys@.len(),
        forall|i: int| 0 <= i < order@.len() ==> (#[trigger] order@[i]) < keys@.len(),
        forall|j: usize| j < keys@.len() ==> #[trigger] order@.contains(j),
        forall|i: int, j: int|
            0 <= i < j < order@.len() ==> keys@[(#[trigger] order@[i]) as int] < keys@[(
            #[trigger] order@[j]) as int],
{
    let mut order: Vec<usize> = Vec::new();
    let mut j: usize = 0;
    while j < keys.len()
        invariant
            j <= keys.len(),
            forall|i: int, k: int|
                0 <= i < keys@.len() && 0 <= k < keys@.len() && i != k ==> keys@[i] != keys@[k],
            order@.len() == j,
            forall|i: int| 0 <= i < order@.len() ==> (#[trigger] order@[i]) < j,
            forall|x: usize| x < j ==> #[trigger] order@.contains(x),
            forall|a: int, b: int|
                0 <= a < b < order@.len() ==> keys@[(#[trigger] order@[a]) as int] < keys@[(
                #[trigger] order@[b]) as int],
        decreases keys.len() - j,
    {
        let ghost before = order@;
        let mut pos: usize = 0;
        while pos < order.len() && keys[order[pos]] < keys[j]
            invariant
                pos <= order@.len(),
                j < keys@.len(),
                before == order@,
                forall|i: int| 0 <= i < order@.len() ==> (#[trigger] order@[i]) < j,
                forall|a: int| 0 <= a < pos ==> keys@[(#[trigger] order@[a]) as int] < keys@[j as int],
            decreases order@.len() - pos,
        {
            pos = pos + 1;
        }
        order.insert(pos, j);
        proof {
            if pos < before.len() {
                assert(before[pos as int] < j);
                assert(keys@[before[pos as int] as int] != keys@[j as int]);
            }
            assert forall|a: int, b: int|
                0 <= a < b < order@.len() implies keys@[(#[trigger] order@[a]) as int] < keys@[(
                #[trigger] order@[b]) as int] by {
                if b < pos {
                    assert(order@[a] == before[a] && order@[b] == before[b]);
                } else if b == pos {
                    assert(order@[a] == before[a]);
                } else if a < pos {
                    assert(order@[a] == before[a] && order@[b] == before[b - 1]);
                    if pos < before.len() {
                        assert(keys@[j as int] < keys@[before[pos as int] as int]);
                        if b - 1 > pos {
                            assert(keys@[before[pos as int] as int] < keys@[before[b - 1] as int]);
                        }
                    }
                } else if a == pos {
                    assert(order@[b] == before[b - 1]);
                    if b - 1 > pos {
                        assert(keys@[before[pos as int] as int] < keys@[before[b - 1] as int]);
                    }
                } else {
                    assert(order@[a] == before[a - 1] && order@[b] == before[b - 1]);
                }
            }
            assert forall|i: int| 0 <= i < order@.len() implies (#[trigger] order@[i]) < j + 1 by {
                if i < pos {
                    assert(order@[i] == before[i]);
                } else if i > pos {
                    assert(order@[i] == before[i - 1]);
                }
            }
            assert forall|x: usize| x < j + 1 implies #[trigger] order@.contains(x) by {
                if x == j {
                    assert(order@[pos as int] == j);
                } else {
                    assert(before.contains(x));
                    let i = choose|i: int| 0 <= i < before.len() && before[i] == x;
                    if i < pos {
                        assert(order@[i] == before[i]);
                    } else {
                        assert(order@[i + 1] == before[i]);
                    }
                }
            }
        }
        j = j + 1;
    }
    order
}

/// Where a value not in an ascending list belongs: after the values below it.
pub open spec fn insert_position<T>(s: Seq<T>, x: T, lt: spec_fn(T, T) -> bool) -> int
    decreases s.len(),
{
    if s.len() > 0 && lt(s[0], x) {
        1 + insert_position(s.drop_first(), x, lt)
    } else {
        0
    }
}

proof fn lemma_insert_position<T>(s: Seq<T>, x: T, lt: spec_fn(T, T) -> bool)
    requires
        strict_total(lt),
        ascending(s, lt),
        !s.contains(x),
    ensures
        0 <= insert_position(s, x, lt) <= s.len(),
        forall|i: int| 0 <= i < insert_position(s, x, lt) ==> lt(#[trigger] s[i], x),
        insert_position(s, x, lt) < s.len() ==> lt(x, s[insert_position(s, x, lt)]),
    decreases s.len(),
{
    if s.len() > 0 {
        let t = s.drop_first();
        assert(ascending(t, lt)) by {
            assert forall|i: int, j: int| 0 <= i < j < t.len() implies lt(#[trigger] t[i], #[trigger] t[j]) by {
                assert(t[i] == s[i + 1] && t[j] == s[j + 1]);
            }
        }
        assert(!t.contains(x)) by {
            if t.contains(x) {
                let i = choose|i: int| 0 <= i < t.len() && t[i] == x;
                assert(s[i + 1] == x);
            }
        }
        lemma_insert_position(t, x, lt);
        if lt(s[0], x) {
            let p = insert_position(s, x, lt);
            assert forall|i: int| 0 <= i < p implies lt(#[trigger] s[i], x) by {
                if i > 0 {
                    assert(s[i] == t[i - 1]);
                }
            }
            if p < s.len() {
                assert(s[p] == t[p - 1]);
            }
        } else {
            assert(s[0] != x);
            assert(lt(x, s[0]));
        }
    }
}

/// Every finite list of values has an ascending list of the same values.
pub proof fn lemma_ascending_list_exists<T>(s: Seq<T>, lt: spec_fn(T, T) -> bool)
    requires
        strict_total(lt),
    ensures
        ascending(ascending_list(s.to_set(), lt), lt),
        ascending_list(s.to_set(), lt).to_set() == s.to_set(),
    decreases s.len(),
{
    if s.len() == 0 {
        let e = Seq::<T>::empty();
        assert(e.to_set() =~= s.to_set());
        assert(ascending(e, lt));
    } else {
        let rest = s.drop_last();
        let x = s.last();
        lemma_ascending_list_exists(rest, lt);
        let r = ascending_list(rest.to_set(), lt);
        assert(s =~= rest.push(x));
        rest.lemma_push_to_set_commute(x);
        if r.contains(x) {
            assert(r.to_set().insert(x) =~= r.to_set());
            assert(ascending(r, lt) && r.to_set() == s.to_set());
        } else {
            lemma_insert_position(r, x, lt);
            lemma_ascending_insert(r, insert_position(r, x, lt), x, lt);
            let w = r.insert(insert_position(r, x, lt), x);
            assert(ascending(w, lt) && w.to_set() == s.to_set());
        }
    }
}

} // verus!
