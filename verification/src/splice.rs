//! Splicing replacement texts into a source text.
use vstd::prelude::*;

use crate::text::{push_all, push_range};

verus! {

/// A half-open range `start..end` of character positions in a source text.
#[derive(Debug, Clone, Copy, PartialEq, Eq, Structural)]
pub struct Span {
    pub start: usize,
    pub end: usize,
}

/// New text for the range `span` of a source text.
#[derive(Debug)]
pub struct Replacement {
    pub span: Span,
    pub text: Vec<char>,
}

/// `sorted` with `r` put after every element whose start is at most the
/// start of `r`, scanning from the back (the step of a stable insertion sort).
pub open spec fn insert_by_start(sorted: Seq<Replacement>, r: Replacement) -> Seq<Replacement>
    decreases sorted.len(),
{
    if sorted.len() == 0 {
        seq![r]
    } else if sorted.last().span.start <= r.span.start {
        sorted.push(r)
    } else {
        insert_by_start(sorted.drop_last(), r).push(sorted.last())
    }
}

/// `reps` stably sorted by the start of their spans.
pub open spec fn sort_by_start(reps: Seq<Replacement>) -> Seq<Replacement>
    decreases reps.len(),
{
    if reps.len() == 0 {
        seq![]
    } else {
        insert_by_start(sort_by_start(reps.drop_last()), reps.last())
    }
}

/// Whether `reps`, applied in order from position `cursor` on, never move
/// backwards past the text already copied and stay inside a text of length
/// `len`.
pub open spec fn chain_fits(len: int, reps: Seq<Replacement>, cursor: int) -> bool
    decreases reps.len(),
{
    if reps.len() == 0 {
        cursor <= len
    } else {
        &&& cursor <= reps[0].span.start <= len
        &&& chain_fits(len, reps.drop_first(), reps[0].span.end as int)
    }
}

/// The text from `cursor` on, with each of `reps` (in order) put in place of
/// the source text it covers.
pub open spec fn splice_from(src: Seq<char>, reps: Seq<Replacement>, cursor: int) -> Seq<char>
    decreases reps.len(),
{
    if reps.len() == 0 {
        src.subrange(cursor, src.len() as int)
    } else {
        src.subrange(cursor, reps[0].span.start as int) + reps[0].text@ + splice_from(
            src,
            reps.drop_first(),
            reps[0].span.end as int,
        )
    }
}

/// The result of applying `reps` to `src`: sort them by start, then splice.
pub open spec fn applied(src: Seq<char>, reps: Seq<Replacement>) -> Seq<char> {
    splice_from(src, sort_by_start(reps), 0)
}

/// Whether `reps` can be applied to a text of length `len`.
pub open spec fn applicable(len: int, reps: Seq<Replacement>) -> bool {
    chain_fits(len, sort_by_start(reps), 0)
}

proof fn lemma_insert_at(s: Seq<Replacement>, r: Replacement, p: int)
    requires
        0 <= p <= s.len(),
        forall|j: int| p <= j < s.len() ==> s[j].span.start > r.span.start,
        p > 0 ==> s[p - 1].span.start <= r.span.start,
    ensures
        insert_by_start(s, r) == s.take(p).push(r) + s.skip(p),
    decreases s.len(),
{
    if s.len() == 0 {
        assert(s.take(p).push(r) + s.skip(p) =~= seq![r]);
    } else if s.last().span.start <= r.span.start {
        assert(p == s.len());
        assert(s.take(p) =~= s);
        assert(s.skip(p) =~= Seq::<Replacement>::empty());
        assert(s.take(p).push(r) + s.skip(p) =~= s.push(r));
    } else {
        let d = s.drop_last();
        lemma_insert_at(d, r, p);
        assert(d.take(p).push(r) + d.skip(p) + seq![s.last()] =~= s.take(p).push(r) + s.skip(p));
    }
}

/// Every element of `reps` starts no later than every element after it.
pub open spec fn sorted_by_start_spec(reps: Seq<Replacement>) -> bool {
    forall|i: int, j: int| 0 <= i < j < reps.len() ==> reps[i].span.start <= reps[j].span.start
}

proof fn lemma_insert_sorted(s: Seq<Replacement>, r: Replacement)
    requires
        sorted_by_start_spec(s),
    ensures
        sorted_by_start_spec(insert_by_start(s, r)),
        insert_by_start(s, r).to_multiset() == s.to_multiset().insert(r),
        insert_by_start(s, r).len() == s.len() + 1,
        insert_by_start(s, r).last().span.start >= r.span.start,
        s.len() > 0 ==> insert_by_start(s, r).last().span.start >= s.last().span.start,
    decreases s.len(),
{
    broadcast use vstd::seq_lib::group_to_multiset_ensures;

    if s.len() == 0 {
        assert(seq![r] =~= Seq::<Replacement>::empty().push(r));
    } else if s.last().span.start <= r.span.start {
    } else {
        let d = s.drop_last();
        assert(sorted_by_start_spec(d));
        lemma_insert_sorted(d, r);
        let t = insert_by_start(d, r);
        assert forall|i: int, j: int| 0 <= i < j < t.len() + 1 implies t.push(s.last())[i].span.start
            <= t.push(s.last())[j].span.start by {
            if j == t.len() {
                if i == t.len() - 1 {
                } else if d.len() > 0 {
                    // t is a permutation of d plus r; every element of it starts
                    // no later than s.last()
                    assert(t.to_multiset().count(t[i]) > 0);
                    if t[i] != r {
                        assert(d.to_multiset().count(t[i]) > 0);
                        assert(d.contains(t[i]));
                        let k: int = choose|k: int| 0 <= k < d.len() && d[k] == t[i];
                        assert(s[k] == d[k]);
                    }
                } else {
                    assert(t =~= seq![r]);
                }
            }
        }
        assert(s =~= d.push(s.last()));
    }
}

/// Sorting by start gives a sequence that is sorted by start and holds the
/// same replacements as before.
pub proof fn lemma_sort_by_start_sorted_permutation(reps: Seq<Replacement>)
    ensures
        sorted_by_start_spec(sort_by_start(reps)),
        sort_by_start(reps).to_multiset() == reps.to_multiset(),
    decreases reps.len(),
{
    broadcast use vstd::seq_lib::group_to_multiset_ensures;

    if reps.len() > 0 {
        lemma_sort_by_start_sorted_permutation(reps.drop_last());
        lemma_insert_sorted(sort_by_start(reps.drop_last()), reps.last());
        assert(reps =~= reps.drop_last().push(reps.last()));
    }
}

/// Two sequences sorted by start that hold the same replacements, where no
/// two different replacements share a start, are the same sequence.
proof fn lemma_sorted_same(s1: Seq<Replacement>, s2: Seq<Replacement>)
    requires
        sorted_by_start_spec(s1),
        sorted_by_start_spec(s2),
        s1.to_multiset() == s2.to_multiset(),
        forall|a: Replacement, b: Replacement|
            s1.contains(a) && s1.contains(b) && a.span.start == b.span.start ==> a == b,
    ensures
        s1 == s2,
    decreases s1.len(),
{
    broadcast use vstd::seq_lib::group_to_multiset_ensures;

    if s1.len() == 0 {
        assert(s2.to_multiset().len() == 0);
        assert(s1 =~= s2);
    } else {
        assert(s2.len() == s1.len()) by {
            s1.to_multiset_ensures();
            s2.to_multiset_ensures();
        }
        let x1 = s1.last();
        let x2 = s2.last();
        assert(s1.contains(x1));
        assert(s1.to_multiset().count(x1) > 0);
        assert(s2.contains(x1));
        assert(s2.to_multiset().count(x2) > 0);
        assert(s1.contains(x2));
        let j = choose|j: int| 0 <= j < s2.len() && s2[j] == x1;
        let i = choose|i: int| 0 <= i < s1.len() && s1[i] == x2;
        if j < s2.len() - 1 {
            assert(s2[j].span.start <= s2[s2.len() - 1].span.start);
        }
        if i < s1.len() - 1 {
            assert(s1[i].span.start <= s1[s1.len() - 1].span.start);
        }
        assert(x1 == x2);
        let d1 = s1.drop_last();
        let d2 = s2.drop_last();
        assert(s1 =~= d1.push(x1));
        assert(s2 =~= d2.push(x1));
        assert(d1.to_multiset() =~= d2.to_multiset()) by {
            assert(d1.push(x1).to_multiset() =~= d1.to_multiset().insert(x1));
            assert(d2.push(x1).to_multiset() =~= d2.to_multiset().insert(x1));
            assert(d1.to_multiset() =~= d1.to_multiset().insert(x1).remove(x1));
            assert(d2.to_multiset() =~= d2.to_multiset().insert(x1).remove(x1));
        }
        assert forall|a: Replacement, b: Replacement|
            d1.contains(a) && d1.contains(b) && a.span.start == b.span.start implies a == b by {
            let ia = choose|ia: int| 0 <= ia < d1.len() && d1[ia] == a;
            let ib = choose|ib: int| 0 <= ib < d1.len() && d1[ib] == b;
            assert(s1[ia] == a && s1[ib] == b);
            assert(s1.contains(a) && s1.contains(b));
        }
        lemma_sorted_same(d1, d2);
    }
}

/// Applying replacements does not depend on the order they are given in,
/// as long as no two different replacements start at the same position:
/// they are sorted into the same order, fit the same texts and give the
/// same result.
pub proof fn lemma_apply_order_independent(
    src: Seq<char>,
    reps: Seq<Replacement>,
    other: Seq<Replacement>,
)
    requires
        other.to_multiset() == reps.to_multiset(),
        forall|a: Replacement, b: Replacement|
            reps.contains(a) && reps.contains(b) && a.span.start == b.span.start ==> a == b,
    ensures
        sort_by_start(other) == sort_by_start(reps),
        applicable(src.len() as int, other) == applicable(src.len() as int, reps),
        applied(src, other) == applied(src, reps),
{
    broadcast use vstd::seq_lib::group_to_multiset_ensures;

    lemma_sort_by_start_sorted_permutation(reps);
    lemma_sort_by_start_sorted_permutation(other);
    let s1 = sort_by_start(reps);
    let s2 = sort_by_start(other);
    assert forall|a: Replacement, b: Replacement|
        s1.contains(a) && s1.contains(b) && a.span.start == b.span.start implies a == b by {
        assert(s1.to_multiset().count(a) > 0 && s1.to_multiset().count(b) > 0);
        assert(reps.contains(a) && reps.contains(b));
    }
    lemma_sorted_same(s1, s2);
}

/// Replacements whose texts are exactly the source text they cover leave
/// the source unchanged.
pub proof fn lemma_splice_identity(src: Seq<char>, reps: Seq<Replacement>, cursor: int)
    requires
        0 <= cursor,
        chain_fits(src.len() as int, reps, cursor),
        forall|i: int|
            0 <= i < reps.len() ==> #[trigger] reps[i].span.start <= reps[i].span.end <= src.len()
                && reps[i].text@ == src.subrange(
                reps[i].span.start as int,
                reps[i].span.end as int,
            ),
    ensures
        splice_from(src, reps, cursor) == src.subrange(cursor, src.len() as int),
    decreases reps.len(),
{
    if reps.len() > 0 {
        let r = reps[0];
        assert forall|i: int| 0 <= i < reps.drop_first().len() implies #[trigger] reps.drop_first()[i].span.start
            <= reps.drop_first()[i].span.end <= src.len() && reps.drop_first()[i].text@
            == src.subrange(
            reps.drop_first()[i].span.start as int,
            reps.drop_first()[i].span.end as int,
        ) by {
            assert(reps.drop_first()[i] == reps[i + 1]);
            assert(reps[i + 1].span.start <= reps[i + 1].span.end <= src.len());
        }
        assert(reps[0].span.start <= reps[0].span.end);
        lemma_splice_identity(src, reps.drop_first(), r.span.end as int);
        assert(src.subrange(cursor, r.span.start as int) + src.subrange(
            r.span.start as int,
            r.span.end as int,
        ) + src.subrange(r.span.end as int, src.len() as int) =~= src.subrange(
            cursor,
            src.len() as int,
        ));
    }
}

/// Applying replacements that each reproduce the text they cover gives the
/// source back unchanged; in particular, applying no replacement does.
pub proof fn lemma_apply_identity(src: Seq<char>, reps: Seq<Replacement>)
    requires
        applicable(src.len() as int, reps),
        forall|i: int|
            0 <= i < reps.len() ==> #[trigger] reps[i].span.start <= reps[i].span.end <= src.len()
                && reps[i].text@ == src.subrange(
                reps[i].span.start as int,
                reps[i].span.end as int,
            ),
    ensures
        applied(src, reps) == src,
{
    broadcast use vstd::seq_lib::group_to_multiset_ensures;

    let sorted = sort_by_start(reps);
    lemma_sort_by_start_sorted_permutation(reps);
    assert forall|i: int| 0 <= i < sorted.len() implies #[trigger] sorted[i].span.start
        <= sorted[i].span.end <= src.len() && sorted[i].text@ == src.subrange(
        sorted[i].span.start as int,
        sorted[i].span.end as int,
    ) by {
        assert(sorted.to_multiset().count(sorted[i]) > 0);
        assert(reps.contains(sorted[i]));
        let k: int = choose|k: int| 0 <= k < reps.len() && reps[k] == sorted[i];
        assert(reps[k].span.start <= reps[k].span.end);
    }
    lemma_splice_identity(src, sorted, 0);
    assert(src.subrange(0, src.len() as int) =~= src);
}

/// Inserts `r` into `sorted` as `insert_by_start` says.
fn insert_replacement(sorted: &mut Vec<Replacement>, r: Replacement)
    ensures
        final(sorted)@ == insert_by_start(old(sorted)@, r),
{
    let mut p: usize = sorted.len();
    while p > 0 && sorted[p - 1].span.start > r.span.start
        invariant
            p <= sorted@.len(),
            sorted@ == old(sorted)@,
            forall|j: int| p <= j < sorted@.len() ==> sorted@[j].span.start > r.span.start,
        decreases p,
    {
        p -= 1;
    }
    proof {
        lemma_insert_at(sorted@, r, p as int);
    }
    let ghost before = sorted@;
    sorted.insert(p, r);
    assert(sorted@ =~= before.take(p as int).push(r) + before.skip(p as int));
}

/// `reps` stably sorted by the start of their spans.
pub fn sorted_by_start(reps: Vec<Replacement>) -> (res: Vec<Replacement>)
    ensures
        res@ == sort_by_start(reps@),
{
    let ghost orig = reps@;
    let total: usize = reps.len();
    assert(orig.len() == total);
    let mut rest = reps;
    let mut sorted: Vec<Replacement> = Vec::new();
    let mut i: usize = 0;
    assert(orig.take(0) =~= Seq::<Replacement>::empty());
    assert(orig.skip(0) =~= orig);
    while rest.len() > 0
        invariant
            i <= orig.len() <= usize::MAX,
            i + rest@.len() == orig.len(),
            rest@ == orig.skip(i as int),
            sorted@ == sort_by_start(orig.take(i as int)),
        decreases rest@.len(),
    {
        let r = rest.remove(0);
        assert(orig.take(i + 1).drop_last() =~= orig.take(i as int));
        insert_replacement(&mut sorted, r);
        i += 1;
        assert(rest@ =~= orig.skip(i as int));
    }
    assert(orig.take(i as int) =~= orig);
    sorted
}

/// Whether the already sorted `reps` can be spliced into a text of length
/// `len` starting at position 0.
pub fn fits(sorted: &[Replacement], len: usize) -> (res: bool)
    ensures
        res == chain_fits(len as int, sorted@, 0),
{
    let mut cursor: usize = 0;
    let mut i: usize = 0;
    assert(sorted@.skip(0) =~= sorted@);
    while i < sorted.len()
        invariant
            i <= sorted@.len(),
            chain_fits(len as int, sorted@, 0) == chain_fits(len as int, sorted@.skip(i as int), cursor as int),
        decreases sorted@.len() - i,
    {
        let start: usize = sorted[i].span.start;
        assert(sorted@.skip(i as int)[0] == sorted@[i as int]);
        assert(sorted@.skip(i as int).drop_first() =~= sorted@.skip(i + 1));
        if !(cursor <= start && start <= len) {
            return false;
        }
        cursor = sorted[i].span.end;
        i += 1;
    }
    cursor <= len
}

/// Splices the already sorted `sorted` into `src`.
pub fn apply_sorted(sorted: &[Replacement], src: &[char]) -> (res: Vec<char>)
    requires
        chain_fits(src@.len() as int, sorted@, 0),
    ensures
        res@ == splice_from(src@, sorted@, 0),
{
    let mut out: Vec<char> = Vec::new();
    let mut cursor: usize = 0;
    let mut i: usize = 0;
    assert(sorted@.skip(0) =~= sorted@);
    while i < sorted.len()
        invariant
            i <= sorted@.len(),
            chain_fits(src@.len() as int, sorted@.skip(i as int), cursor as int),
            out@ + splice_from(src@, sorted@.skip(i as int), cursor as int) == splice_from(
                src@,
                sorted@,
                0,
            ),
        decreases sorted@.len() - i,
    {
        let r = &sorted[i];
        assert(sorted@.skip(i as int)[0] == sorted@[i as int]);
        assert(sorted@.skip(i as int).drop_first() =~= sorted@.skip(i + 1));
        let ghost before = out@;
        push_range(&mut out, src, cursor, r.span.start);
        push_all(&mut out, r.text.as_slice());
        assert(out@ =~= before + src@.subrange(cursor as int, r.span.start as int) + r.text@);
        cursor = r.span.end;
        i += 1;
    }
    push_range(&mut out, src, cursor, src.len());
    out
}

/// Sorts `replacements` by start and splices them into `src`.
pub fn apply_replacements(replacements: Vec<Replacement>, src: &[char]) -> (res: Vec<char>)
    requires
        applicable(src@.len() as int, replacements@),
    ensures
        res@ == applied(src@, replacements@),
{
    let sorted = sorted_by_start(replacements);
    apply_sorted(sorted.as_slice(), src)
}

/// Sorts `replacements` by start and splices them into `src`, or gives
/// `None` when they overlap or reach past the end of `src`.
pub fn try_apply_replacements(replacements: Vec<Replacement>, src: &[char]) -> (res: Option<
    Vec<char>,
>)
    ensures
        match res {
            Some(out) => applicable(src@.len() as int, replacements@) && out@ == applied(
                src@,
                replacements@,
            ),
            None => !applicable(src@.len() as int, replacements@),
        },
{
    let sorted = sorted_by_start(replacements);
    if fits(sorted.as_slice(), src.len()) {
        Some(apply_sorted(sorted.as_slice(), src))
    } else {
        None
    }
}

} // verus!
