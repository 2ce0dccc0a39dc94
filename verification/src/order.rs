//! Lexicographic order on sequences.
use vstd::prelude::*;

verus! {

/// `lt` is a strict total order.
pub open spec fn strict_total<T>(lt: spec_fn(T, T) -> bool) -> bool {
    &&& forall|x: T| !#[trigger] lt(x, x)
    &&& forall|x: T, y: T, z: T| #[trigger] lt(x, y) && #[trigger] lt(y, z) ==> lt(x, z)
    &&& forall|x: T, y: T| x != y ==> #[trigger] lt(x, y) || #[trigger] lt(y, x)
}

/// `a` and `b` agree on their first `k` elements, and there `a` ends while
/// `b` goes on, or `a`'s element comes before `b`'s.
pub open spec fn lex_lt_at<T>(a: Seq<T>, b: Seq<T>, lt: spec_fn(T, T) -> bool, k: int) -> bool {
    &&& 0 <= k <= a.len()
    &&& k <= b.len()
    &&& forall|j: int| 0 <= j < k ==> a[j] == b[j]
    &&& ((k == a.len() && k < b.len()) || (k < a.len() && k < b.len() && lt(a[k], b[k])))
}

/// `a` comes before `b` in the lexicographic order that `lt` induces.
pub open spec fn lex_lt<T>(a: Seq<T>, b: Seq<T>, lt: spec_fn(T, T) -> bool) -> bool {
    exists|k: int| #[trigger] lex_lt_at(a, b, lt, k)
}

pub proof fn lemma_lex_irreflexive<T>(a: Seq<T>, lt: spec_fn(T, T) -> bool)
    requires
        strict_total(lt),
    ensures
        !lex_lt(a, a, lt),
{
    if lex_lt(a, a, lt) {
        let k = choose|k: int| #[trigger] lex_lt_at(a, a, lt, k);
        assert(!lt(a[k], a[k]));
    }
}

pub proof fn lemma_lex_transitive<T>(a: Seq<T>, b: Seq<T>, c: Seq<T>, lt: spec_fn(T, T) -> bool)
    requires
        strict_total(lt),
        lex_lt(a, b, lt),
        lex_lt(b, c, lt),
    ensures
        lex_lt(a, c, lt),
{
    let k1 = choose|k: int| #[trigger] lex_lt_at(a, b, lt, k);
    let k2 = choose|k: int| #[trigger] lex_lt_at(b, c, lt, k);
    if k1 < k2 {
        assert(lex_lt_at(a, c, lt, k1));
    } else if k2 < k1 {
        assert(lex_lt_at(a, c, lt, k2));
    } else {
        if k1 < a.len() {
            assert(lt(a[k1], b[k1]) && lt(b[k1], c[k1]));
            assert(lt(a[k1], c[k1]));
        }
        assert(lex_lt_at(a, c, lt, k1));
    }
}

pub proof fn lemma_lex_total<T>(a: Seq<T>, b: Seq<T>, lt: spec_fn(T, T) -> bool)
    requires
        strict_total(lt),
        a != b,
    ensures
        lex_lt(a, b, lt) || lex_lt(b, a, lt),
{
    let n: int = if a.len() < b.len() {
        a.len() as int
    } else {
        b.len() as int
    };
    if forall|j: int| 0 <= j < n ==> a[j] == b[j] {
        if a.len() == b.len() {
            assert(a =~= b);
        } else if a.len() < b.len() {
            assert(lex_lt_at(a, b, lt, n));
        } else {
            assert(lex_lt_at(b, a, lt, n));
        }
    } else {
        let m = choose|j: int| 0 <= j < n && a[j] != b[j];
        lemma_first_mismatch(a, b, m);
        let k = choose|k: int| 0 <= k <= m && a[k] != b[k] && forall|j: int| 0 <= j < k ==> a[j] == b[j];
        if lt(a[k], b[k]) {
            assert(lex_lt_at(a, b, lt, k));
        } else {
            assert(lt(b[k], a[k]));
            assert(lex_lt_at(b, a, lt, k));
        }
    }
}

proof fn lemma_first_mismatch<T>(a: Seq<T>, b: Seq<T>, m: int)
    requires
        0 <= m < a.len(),
        m < b.len(),
        a[m] != b[m],
    ensures
        exists|k: int| 0 <= k <= m && a[k] != b[k] && forall|j: int| 0 <= j < k ==> a[j] == b[j],
    decreases m,
{
    if exists|j: int| 0 <= j < m && a[j] != b[j] {
        let j = choose|j: int| 0 <= j < m && a[j] != b[j];
        lemma_first_mismatch(a, b, j);
    } else {
        assert(forall|j: int| 0 <= j < m ==> a[j] == b[j]);
    }
}

/// The lexicographic order induced by a strict total order is one too.
pub proof fn lemma_lex_strict_total<T>(lt: spec_fn(T, T) -> bool)
    requires
        strict_total(lt),
    ensures
        strict_total(|a: Seq<T>, b: Seq<T>| lex_lt(a, b, lt)),
{
    let l = |a: Seq<T>, b: Seq<T>| lex_lt(a, b, lt);
    assert forall|x: Seq<T>| !#[trigger] l(x, x) by {
        lemma_lex_irreflexive(x, lt);
    }
    assert forall|x: Seq<T>, y: Seq<T>, z: Seq<T>| #[trigger] l(x, y) && #[trigger] l(y, z) implies l(
        x,
        z,
    ) by {
        lemma_lex_transitive(x, y, z, lt);
    }
    assert forall|x: Seq<T>, y: Seq<T>| x != y implies #[trigger] l(x, y) || #[trigger] l(y, x) by {
        lemma_lex_total(x, y, lt);
    }
}

/// How the comparison of two sequences is decided at the first position
/// `i` where they differ (or where the shorter one ends).
pub proof fn lemma_lex_decide<T>(a: Seq<T>, b: Seq<T>, lt: spec_fn(T, T) -> bool, i: int)
    requires
        strict_total(lt),
        0 <= i <= a.len(),
        i <= b.len(),
        forall|j: int| 0 <= j < i ==> a[j] == b[j],
        i == a.len() || i == b.len() || a[i] != b[i],
    ensures
        i < a.len() && i < b.len() ==> {
            &&& lex_lt(a, b, lt) == lt(a[i], b[i])
            &&& lex_lt(b, a, lt) == lt(b[i], a[i])
            &&& a != b
        },
        !(i < a.len() && i < b.len()) ==> {
            &&& lex_lt(a, b, lt) == (a.len() < b.len())
            &&& lex_lt(b, a, lt) == (b.len() < a.len())
            &&& (a == b) == (a.len() == b.len())
        },
{
    lemma_lex_irreflexive(a, lt);
    lemma_lex_irreflexive(b, lt);
    if lex_lt(a, b, lt) && lex_lt(b, a, lt) {
        lemma_lex_transitive(a, b, a, lt);
    }
    if i < a.len() && i < b.len() {
        assert(a[i] != b[i]);
        if lt(a[i], b[i]) {
            assert(lex_lt_at(a, b, lt, i));
            if lt(b[i], a[i]) {
                assert(lt(a[i], a[i]));
            }
        } else {
            assert(lt(b[i], a[i]));
            assert(lex_lt_at(b, a, lt, i));
        }
    } else if a.len() < b.len() {
        assert(lex_lt_at(a, b, lt, i));
    } else if b.len() < a.len() {
        assert(lex_lt_at(b, a, lt, i));
    } else {
        assert(a =~= b);
    }
}

/// Every element of `s` comes before every later one.
pub open spec fn strictly_sorted<T>(s: Seq<T>, lt: spec_fn(T, T) -> bool) -> bool {
    forall|i: int, j: int| 0 <= i < j < s.len() ==> #[trigger] lt(s[i], s[j])
}

/// Two strictly sorted sequences with the same elements are equal.
pub proof fn lemma_sorted_unique<T>(r1: Seq<T>, r2: Seq<T>, lt: spec_fn(T, T) -> bool)
    requires
        strict_total(lt),
        strictly_sorted(r1, lt),
        strictly_sorted(r2, lt),
        forall|x: T| r1.contains(x) <==> r2.contains(x),
    ensures
        r1 == r2,
    decreases r1.len(),
{
    if r1.len() == 0 {
        if r2.len() > 0 {
            assert(r2.contains(r2[0]));
        }
        assert(r1 =~= r2);
    } else {
        assert(r1.contains(r1[0]));
        assert(r2.len() > 0);
        assert(r2.contains(r2[0]));
        let i = choose|i: int| 0 <= i < r1.len() && r1[i] == r2[0];
        let j = choose|j: int| 0 <= j < r2.len() && r2[j] == r1[0];
        if r1[0] != r2[0] {
            assert(i > 0 && j > 0);
            assert(lt(r1[0], r1[i]));
            assert(lt(r2[0], r2[j]));
            assert(lt(r1[0], r1[0]));
        }
        let t1 = r1.drop_first();
        let t2 = r2.drop_first();
        assert forall|x: T| t1.contains(x) <==> t2.contains(x) by {
            if t1.contains(x) {
                let k = choose|k: int| 0 <= k < t1.len() && t1[k] == x;
                assert(r1[k + 1] == x);
                assert(lt(r1[0], r1[k + 1]));
                assert(r2.contains(x));
                let q = choose|q: int| 0 <= q < r2.len() && r2[q] == x;
                if q == 0 {
                    assert(lt(x, x));
                }
                assert(t2[q - 1] == x);
            }
            if t2.contains(x) {
                let k = choose|k: int| 0 <= k < t2.len() && t2[k] == x;
                assert(r2[k + 1] == x);
                assert(lt(r2[0], r2[k + 1]));
                assert(r1.contains(x));
                let q = choose|q: int| 0 <= q < r1.len() && r1[q] == x;
                if q == 0 {
                    assert(lt(x, x));
                }
                assert(t1[q - 1] == x);
            }
        }
        assert(strictly_sorted(t1, lt)) by {
            assert forall|a: int, b: int| 0 <= a < b < t1.len() implies #[trigger] lt(t1[a], t1[b]) by {
                assert(lt(r1[a + 1], r1[b + 1]));
            }
        }
        assert(strictly_sorted(t2, lt)) by {
            assert forall|a: int, b: int| 0 <= a < b < t2.len() implies #[trigger] lt(t2[a], t2[b]) by {
                assert(lt(r2[a + 1], r2[b + 1]));
            }
        }
        lemma_sorted_unique(t1, t2, lt);
        assert(r1 =~= seq![r1[0]] + t1);
        assert(r2 =~= seq![r2[0]] + t2);
    }
}

} // verus!
