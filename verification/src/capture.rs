//! Picking, from the matches of the query over a source file, the string
//! literal of every `sqlx` query macro invocation.
use vstd::prelude::*;

use crate::external::{parse_string_literal, string_literal_value};
use crate::normalize::{indent_at, literal_indent};
use crate::order::{lemma_sorted_unique, strict_total, strictly_sorted};
use crate::plan::{somes, LiteralCapture};
use crate::splice::Span;
use crate::text::push_range;
use crate::utf8::{char_index_of_byte, chars_of, lemma_utf8_len_step, utf8_len};

verus! {

/// A node of the syntax tree, as plain values.
#[derive(Debug)]
pub struct SyntaxNode {
    pub start_byte: usize,
    pub end_byte: usize,
    pub kind: String,
    pub row: usize,
}

/// One capture of a query match: the index of its name among the query's
/// capture names, and the captured node.
#[derive(Debug)]
pub struct QueryCaptureData {
    pub index: usize,
    pub node: SyntaxNode,
}

/// One match of the query.
#[derive(Debug)]
pub struct QueryMatchData {
    pub captures: Vec<QueryCaptureData>,
}

/// A node kind that `is_string_literal` accepts.
pub open spec fn is_string_literal_kind(kind: Seq<char>) -> bool {
    kind == "raw_string_literal"@ || kind == "string_literal"@
}

/// Whether two strings are equal.
pub fn str_equals(a: &str, b: &str) -> (res: bool)
    ensures
        res == (a@ == b@),
{
    let x: &[u8] = a.as_bytes();
    let y: &[u8] = b.as_bytes();
    proof {
        vstd::utf8::encode_utf8_decode_utf8(a@);
        vstd::utf8::encode_utf8_decode_utf8(b@);
    }
    assert(x@ == vstd::utf8::encode_utf8(a@));
    if x.len() != y.len() {
        return false;
    }
    let mut i: usize = 0;
    while i < x.len()
        invariant
            x@.len() == y@.len(),
            x@ == vstd::utf8::encode_utf8(a@),
            y@ == vstd::utf8::encode_utf8(b@),
            vstd::utf8::decode_utf8(x@) == a@,
            vstd::utf8::decode_utf8(y@) == b@,
            i <= x@.len(),
            forall|j: int| 0 <= j < i ==> x@[j] == y@[j],
        decreases x@.len() - i,
    {
        if x[i] != y[i] {
            assert(x@[i as int] != y@[i as int]);
            assert(x@ != y@);
            assert(vstd::utf8::encode_utf8(a@) == x@ && vstd::utf8::encode_utf8(b@) == y@);
            assert(a@ != b@);
            return false;
        }
        i += 1;
    }
    assert(x@ =~= y@);
    true
}

/// Whether a node of kind `kind` is a (raw) string literal.
pub fn is_string_literal(kind: &str) -> (res: bool)
    ensures
        res == is_string_literal_kind(kind@),
{
    str_equals(kind, "raw_string_literal") || str_equals(kind, "string_literal")
}

/// What a capture of the query stands for.
#[derive(Debug, Clone, Copy, PartialEq, Eq, Structural)]
pub enum CaptureRole {
    /// The whole macro invocation (capture `inv`).
    Invocation,
    /// A string literal in it (capture `lit` or `raw`).
    Literal,
    /// Any other capture.
    Other,
}

impl View for SyntaxNode {
    /// Start byte, end byte, kind and starting row.
    type V = (usize, usize, Seq<char>, usize);

    open spec fn view(&self) -> (usize, usize, Seq<char>, usize) {
        (self.start_byte, self.end_byte, self.kind@, self.row)
    }
}

impl View for QueryCaptureData {
    /// The capture name's index and the node.
    type V = (usize, (usize, usize, Seq<char>, usize));

    open spec fn view(&self) -> (usize, (usize, usize, Seq<char>, usize)) {
        (self.index, self.node@)
    }
}

impl View for QueryMatchData {
    /// The captures of the match, in order.
    type V = Seq<(usize, (usize, usize, Seq<char>, usize))>;

    open spec fn view(&self) -> Seq<(usize, (usize, usize, Seq<char>, usize))> {
        self.captures@.map_values(|c: QueryCaptureData| c@)
    }
}

/// The matches as plain values.
pub open spec fn match_views(ms: Seq<QueryMatchData>) -> Seq<
    Seq<(usize, (usize, usize, Seq<char>, usize))>,
> {
    ms.map_values(|m: QueryMatchData| m@)
}

/// The capture names as plain values.
pub open spec fn name_views(names: Seq<String>) -> Seq<Seq<char>> {
    names.map_values(|s: String| s@)
}

/// The role of the capture whose name has index `index` among `names`.
pub open spec fn role_of(names: Seq<Seq<char>>, index: usize) -> CaptureRole {
    if index < names.len() {
        let name = names[index as int];
        if name == "inv"@ {
            CaptureRole::Invocation
        } else if name == "lit"@ || name == "raw"@ {
            CaptureRole::Literal
        } else {
            CaptureRole::Other
        }
    } else {
        CaptureRole::Other
    }
}

/// The role of a capture with name index `index`.
pub fn capture_role(names: &[String], index: usize) -> (res: CaptureRole)
    ensures
        res == role_of(name_views(names@), index),
{
    if index < names.len() {
        let name: &str = names[index].as_str();
        if str_equals(name, "inv") {
            CaptureRole::Invocation
        } else if str_equals(name, "lit") || str_equals(name, "raw") {
            CaptureRole::Literal
        } else {
            CaptureRole::Other
        }
    } else {
        CaptureRole::Other
    }
}

/// A node's byte range as a pair.
pub open spec fn node_span(n: (usize, usize, Seq<char>, usize)) -> (usize, usize) {
    (n.0, n.1)
}

/// The order of pairs: by first component, then by second.
pub open spec fn pair_lt(a: (usize, usize), b: (usize, usize)) -> bool {
    a.0 < b.0 || (a.0 == b.0 && a.1 < b.1)
}

/// The byte range of the last invocation capture of a match.
pub open spec fn match_invocation(
    caps: Seq<(usize, (usize, usize, Seq<char>, usize))>,
    names: Seq<Seq<char>>,
) -> Option<(usize, usize)>
    decreases caps.len(),
{
    if caps.len() == 0 {
        None
    } else if role_of(names, caps.last().0) is Invocation {
        Some(node_span(caps.last().1))
    } else {
        match_invocation(caps.drop_last(), names)
    }
}

/// The literal capture of a match with the least byte range (the first
/// such capture when several have it).
pub open spec fn match_literal(
    caps: Seq<(usize, (usize, usize, Seq<char>, usize))>,
    names: Seq<Seq<char>>,
) -> Option<(usize, usize, Seq<char>, usize)>
    decreases caps.len(),
{
    if caps.len() == 0 {
        None
    } else {
        let prev = match_literal(caps.drop_last(), names);
        let c = caps.last().1;
        if role_of(names, caps.last().0) is Literal {
            match prev {
                None => Some(c),
                Some(cur) => if pair_lt(node_span(c), node_span(cur)) {
                    Some(c)
                } else {
                    Some(cur)
                },
            }
        } else {
            prev
        }
    }
}

/// What a match contributes: its invocation's byte range and its literal,
/// when it has both and the literal is a string literal.
pub open spec fn match_candidate(
    caps: Seq<(usize, (usize, usize, Seq<char>, usize))>,
    names: Seq<Seq<char>>,
) -> Option<((usize, usize), (usize, usize, Seq<char>, usize))> {
    match (match_invocation(caps, names), match_literal(caps, names)) {
        (Some(k), Some(n)) => if is_string_literal_kind(n.2) {
            Some((k, n))
        } else {
            None
        },
        _ => None,
    }
}

/// For every invocation, the literal with the least byte range over all the
/// matches of that invocation (the earliest among equals).
pub open spec fn chosen_literals(
    ms: Seq<Seq<(usize, (usize, usize, Seq<char>, usize))>>,
    names: Seq<Seq<char>>,
) -> Map<(usize, usize), (usize, usize, Seq<char>, usize)>
    decreases ms.len(),
{
    if ms.len() == 0 {
        Map::empty()
    } else {
        let m = chosen_literals(ms.drop_last(), names);
        match match_candidate(ms.last(), names) {
            None => m,
            Some((k, n)) => if !m.contains_key(k) || pair_lt(node_span(n), node_span(m[k])) {
                m.insert(k, n)
            } else {
                m
            },
        }
    }
}

/// `a`'s byte range starts before `b`'s, or at the same byte and ends no
/// later.
spec fn starts_first(a: (usize, usize, Seq<char>, usize), b: (usize, usize, Seq<char>, usize)) -> bool {
    a.0 < b.0 || (a.0 == b.0 && a.1 <= b.1)
}

/// The literal a match offers starts no later than any literal capture of
/// that match.
proof fn lemma_match_literal_first(
    caps: Seq<(usize, (usize, usize, Seq<char>, usize))>,
    names: Seq<Seq<char>>,
    j: int,
)
    requires
        0 <= j < caps.len(),
        role_of(names, caps[j].0) is Literal,
    ensures
        match_literal(caps, names) matches Some(n) && starts_first(n, caps[j].1),
    decreases caps.len(),
{
    let d = caps.drop_last();
    if j < caps.len() - 1 {
        assert(d[j] == caps[j]);
        lemma_match_literal_first(d, names, j);
    } else {
        if match_literal(d, names) is Some {
        }
    }
}

/// For every match that offers a literal for an invocation, the literal
/// chosen for that invocation starts no later than the offered one.
proof fn lemma_chosen_first(ms: Seq<Seq<(usize, (usize, usize, Seq<char>, usize))>>, names: Seq<Seq<char>>, i: int)
    requires
        0 <= i < ms.len(),
        match_candidate(ms[i], names) is Some,
    ensures
        ({
            let (k, n) = match_candidate(ms[i], names)->0;
            chosen_literals(ms, names).contains_key(k) && starts_first(chosen_literals(ms, names)[k], n)
        }),
    decreases ms.len(),
{
    let d = ms.drop_last();
    if i < ms.len() - 1 {
        assert(d[i] == ms[i]);
        lemma_chosen_first(d, names, i);
    }
}

/// Every literal chosen for an invocation is one that a match offered for
/// that invocation.
pub proof fn lemma_chosen_literal_is_offered(
    ms: Seq<Seq<(usize, (usize, usize, Seq<char>, usize))>>,
    names: Seq<Seq<char>>,
    k: (usize, usize),
)
    requires
        chosen_literals(ms, names).contains_key(k),
    ensures
        exists|i: int|
            0 <= i < ms.len() && #[trigger] match_candidate(ms[i], names) == Some(
                (k, chosen_literals(ms, names)[k]),
            ),
    decreases ms.len(),
{
    let d = ms.drop_last();
    let m = chosen_literals(d, names);
    let last = ms.len() - 1;
    if match_candidate(ms[last], names) == Some((k, chosen_literals(ms, names)[k])) {
    } else {
        lemma_chosen_literal_is_offered(d, names, k);
        let i = choose|i: int| 0 <= i < d.len() && #[trigger] match_candidate(d[i], names) == Some((k, m[k]));
        assert(d[i] == ms[i]);
    }
}

/// The literal chosen for an invocation is the first of its string
/// literals: it starts no later than every literal captured for that
/// invocation in any match that offers one (and, among literals with the
/// same start, ends no later).
pub proof fn lemma_chosen_literal_comes_first(
    ms: Seq<Seq<(usize, (usize, usize, Seq<char>, usize))>>,
    names: Seq<Seq<char>>,
    i: int,
    j: int,
)
    requires
        0 <= i < ms.len(),
        0 <= j < ms[i].len(),
        role_of(names, ms[i][j].0) is Literal,
        match_candidate(ms[i], names) is Some,
    ensures
        ({
            let (k, offered) = match_candidate(ms[i], names)->0;
            let chosen = chosen_literals(ms, names)[k];
            let lit = ms[i][j].1;
            &&& chosen_literals(ms, names).contains_key(k)
            &&& chosen.0 < lit.0 || (chosen.0 == lit.0 && chosen.1 <= lit.1)
        }),
{
    lemma_match_literal_first(ms[i], names, j);
    lemma_chosen_first(ms, names, i);
}

/// A copy of `n`.
pub fn copy_node(n: &SyntaxNode) -> (res: SyntaxNode)
    ensures
        res == *n,
{
    SyntaxNode { start_byte: n.start_byte, end_byte: n.end_byte, kind: n.kind.clone(), row: n.row }
}

fn span_before(a: (usize, usize), b: (usize, usize)) -> (res: bool)
    ensures
        res == pair_lt(a, b),
{
    a.0 < b.0 || (a.0 == b.0 && a.1 < b.1)
}

/// What the match `m` contributes (see `match_candidate`).
fn candidate_of(m: &QueryMatchData, names: &[String]) -> (res: Option<((usize, usize), SyntaxNode)>)
    ensures
        match res {
            None => match_candidate(m@, name_views(names@)) is None,
            Some((k, n)) => match_candidate(m@, name_views(names@)) == Some((k, n@)),
        },
{
    let caps: &Vec<QueryCaptureData> = &m.captures;
    let ghost cv = m@;
    let ghost nv = name_views(names@);
    let mut invocation: Option<(usize, usize)> = None;
    let mut literal: Option<usize> = None;
    let mut i: usize = 0;
    assert(cv.take(0) =~= Seq::<(usize, (usize, usize, Seq<char>, usize))>::empty());
    while i < caps.len()
        invariant
            cv == caps@.map_values(|c: QueryCaptureData| c@),
            nv == name_views(names@),
            i <= caps@.len(),
            invocation == match_invocation(cv.take(i as int), nv),
            match literal {
                None => match_literal(cv.take(i as int), nv) is None,
                Some(j) => j < i && match_literal(cv.take(i as int), nv) == Some(caps@[j as int].node@),
            },
        decreases caps@.len() - i,
    {
        let c = &caps[i];
        assert(cv.take(i + 1).drop_last() =~= cv.take(i as int));
        assert(cv.take(i + 1).last() == caps@[i as int]@);
        match capture_role(names, c.index) {
            CaptureRole::Invocation => {
                invocation = Some((c.node.start_byte, c.node.end_byte));
            },
            CaptureRole::Literal => {
                match literal {
                    None => {
                        literal = Some(i);
                    },
                    Some(j) => {
                        let cur = &caps[j].node;
                        if span_before((c.node.start_byte, c.node.end_byte), (cur.start_byte, cur.end_byte)) {
                            literal = Some(i);
                        }
                    },
                }
            },
            CaptureRole::Other => {},
        }
        i += 1;
    }
    assert(cv.take(i as int) =~= cv);
    match (invocation, literal) {
        (Some(k), Some(j)) => {
            let node = copy_node(&caps[j].node);
            if is_string_literal(node.kind.as_str()) {
                Some((k, node))
            } else {
                None
            }
        },
        _ => None,
    }
}

/// An invocation's byte range and the literal chosen for it.
#[derive(Debug)]
pub struct SelectedLiteral {
    pub invocation: (usize, usize),
    pub node: SyntaxNode,
}

/// `sel` lists the entries of `m` exactly once each, by increasing key.
pub open spec fn lists_map(
    sel: Seq<SelectedLiteral>,
    m: Map<(usize, usize), (usize, usize, Seq<char>, usize)>,
) -> bool {
    &&& forall|i: int, j: int|
        0 <= i < j < sel.len() ==> pair_lt(#[trigger] sel[i].invocation, #[trigger] sel[j].invocation)
    &&& forall|i: int|
        0 <= i < sel.len() ==> m.contains_key(#[trigger] sel[i].invocation) && m[sel[i].invocation]
            == sel[i].node@
    &&& forall|k: (usize, usize)|
        m.contains_key(k) ==> exists|i: int| 0 <= i < sel.len() && #[trigger] sel[i].invocation == k
}

/// A map has one listing: two sequences that list the same map agree
/// element by element.
pub proof fn lemma_lists_map_unique(
    s1: Seq<SelectedLiteral>,
    s2: Seq<SelectedLiteral>,
    m: Map<(usize, usize), (usize, usize, Seq<char>, usize)>,
)
    requires
        lists_map(s1, m),
        lists_map(s2, m),
    ensures
        s1.len() == s2.len(),
        forall|i: int|
            0 <= i < s1.len() ==> #[trigger] s1[i].invocation == s2[i].invocation && s1[i].node@
                == s2[i].node@,
{
    let lt = |a: (usize, usize), b: (usize, usize)| pair_lt(a, b);
    let k1 = s1.map_values(|s: SelectedLiteral| s.invocation);
    let k2 = s2.map_values(|s: SelectedLiteral| s.invocation);
    assert(strict_total(lt));
    assert(strictly_sorted(k1, lt)) by {
        assert forall|i: int, j: int| 0 <= i < j < k1.len() implies #[trigger] lt(k1[i], k1[j]) by {
            assert(pair_lt(s1[i].invocation, s1[j].invocation));
        }
    }
    assert(strictly_sorted(k2, lt)) by {
        assert forall|i: int, j: int| 0 <= i < j < k2.len() implies #[trigger] lt(k2[i], k2[j]) by {
            assert(pair_lt(s2[i].invocation, s2[j].invocation));
        }
    }
    assert forall|x: (usize, usize)| k1.contains(x) <==> k2.contains(x) by {
        if k1.contains(x) {
            let i = choose|i: int| 0 <= i < k1.len() && k1[i] == x;
            assert(s1[i].invocation == x);
            assert(m.contains_key(x));
            let j = choose|j: int| 0 <= j < s2.len() && #[trigger] s2[j].invocation == x;
            assert(k2[j] == x);
        }
        if k2.contains(x) {
            let i = choose|i: int| 0 <= i < k2.len() && k2[i] == x;
            assert(s2[i].invocation == x);
            assert(m.contains_key(x));
            let j = choose|j: int| 0 <= j < s1.len() && #[trigger] s1[j].invocation == x;
            assert(k1[j] == x);
        }
    }
    lemma_sorted_unique(k1, k2, lt);
    assert(k1.len() == k2.len());
    assert forall|i: int| 0 <= i < s1.len() implies #[trigger] s1[i].invocation == s2[i].invocation
        && s1[i].node@ == s2[i].node@ by {
        assert(k1[i] == k2[i]);
    }
}

/// For every invocation found by the query, the string literal chosen for
/// it (see `chosen_literals`), by increasing byte range of the invocation.
pub fn select_literal_nodes(matches: &[QueryMatchData], names: &[String]) -> (res: Vec<
    SelectedLiteral,
>)
    ensures
        lists_map(res@, chosen_literals(match_views(matches@), name_views(names@))),
{
    let ghost mv = match_views(matches@);
    let ghost nv = name_views(names@);
    let mut sel: Vec<SelectedLiteral> = Vec::new();
    let mut t: usize = 0;
    assert(mv.take(0) =~= Seq::<Seq<(usize, (usize, usize, Seq<char>, usize))>>::empty());
    while t < matches.len()
        invariant
            mv == match_views(matches@),
            nv == name_views(names@),
            t <= matches@.len(),
            lists_map(sel@, chosen_literals(mv.take(t as int), nv)),
        decreases matches@.len() - t,
    {
        let ghost before = chosen_literals(mv.take(t as int), nv);
        assert(mv.take(t + 1).drop_last() =~= mv.take(t as int));
        assert(mv.take(t + 1).last() == matches@[t as int]@);
        match candidate_of(&matches[t], names) {
            None => {},
            Some((k, node)) => {
                let mut p: usize = 0;
                while p < sel.len() && span_before(sel[p].invocation, k)
                    invariant
                        p <= sel@.len(),
                        forall|q: int| 0 <= q < p ==> pair_lt(#[trigger] sel@[q].invocation, k),
                    decreases sel@.len() - p,
                {
                    p += 1;
                }
                if p < sel.len() && sel[p].invocation.0 == k.0 && sel[p].invocation.1 == k.1 {
                    let cur = &sel[p].node;
                    if span_before((node.start_byte, node.end_byte), (cur.start_byte, cur.end_byte)) {
                        let ghost old_sel = sel@;
                        let ghost nview = node@;
                        sel.remove(p);
                        sel.insert(p, SelectedLiteral { invocation: k, node });
                        proof {
                            assert(sel@[p as int].node@ == nview);
                            assert forall|q: int| 0 <= q < sel@.len() && q != p implies sel@[q] == old_sel[q] by {}
                            let after = before.insert(k, nview);
                            assert forall|k2: (usize, usize)| after.contains_key(k2) implies exists|i: int|
                                0 <= i < sel@.len() && #[trigger] sel@[i].invocation == k2 by {
                                if k2 != k {
                                    let i = choose|i: int|
                                        0 <= i < old_sel.len() && #[trigger] old_sel[i].invocation == k2;
                                    assert(sel@[i].invocation == k2);
                                } else {
                                    assert(sel@[p as int].invocation == k2);
                                }
                            }
                        }
                    }
                } else {
                    proof {
                        if before.contains_key(k) {
                            let i = choose|i: int| 0 <= i < sel@.len() && #[trigger] sel@[i].invocation == k;
                            if i < p {
                                assert(pair_lt(sel@[i].invocation, k));
                            } else if i > p {
                                assert(pair_lt(sel@[p as int].invocation, sel@[i].invocation));
                            }
                        }
                    }
                    let ghost old_sel = sel@;
                    let ghost nview = node@;
                    sel.insert(p, SelectedLiteral { invocation: k, node });
                    proof {
                        let after = before.insert(k, nview);
                        assert forall|i: int, j: int|
                            0 <= i < j < sel@.len() implies pair_lt(#[trigger] sel@[i].invocation, #[trigger] sel@[j].invocation) by {
                            if j < p {
                                assert(sel@[i] == old_sel[i] && sel@[j] == old_sel[j]);
                            } else if j == p {
                                assert(sel@[i] == old_sel[i]);
                            } else if i < p {
                                assert(sel@[i] == old_sel[i] && sel@[j] == old_sel[j - 1]);
                                assert(pair_lt(old_sel[i].invocation, k));
                                if j - 1 > p {
                                    assert(pair_lt(old_sel[p as int].invocation, old_sel[j - 1].invocation));
                                }
                            } else if i == p {
                                assert(sel@[j] == old_sel[j - 1]);
                                if j - 1 > p {
                                    assert(pair_lt(old_sel[p as int].invocation, old_sel[j - 1].invocation));
                                }
                            } else {
                                assert(sel@[i] == old_sel[i - 1] && sel@[j] == old_sel[j - 1]);
                            }
                        }
                        assert forall|i: int| 0 <= i < sel@.len() implies after.contains_key(
                            #[trigger] sel@[i].invocation,
                        ) && after[sel@[i].invocation] == sel@[i].node@ by {
                            if i < p {
                                assert(sel@[i] == old_sel[i]);
                            } else if i > p {
                                assert(sel@[i] == old_sel[i - 1]);
                            }
                        }
                        assert forall|k2: (usize, usize)| after.contains_key(k2) implies exists|i: int|
                            0 <= i < sel@.len() && #[trigger] sel@[i].invocation == k2 by {
                            if k2 != k {
                                let i = choose|i: int|
                                    0 <= i < old_sel.len() && #[trigger] old_sel[i].invocation == k2;
                                if i < p {
                                    assert(sel@[i].invocation == k2);
                                } else {
                                    assert(sel@[i + 1].invocation == k2);
                                }
                            } else {
                                assert(sel@[p as int].invocation == k2);
                            }
                        }
                    }
                }
            },
        }
        t += 1;
    }
    assert(mv.take(t as int) =~= mv);
    sel
}

/// The character position at which the UTF-8 encoding of `src` reaches byte
/// offset `byte`, if it reaches it at a character boundary.
pub open spec fn char_position(src: Seq<char>, byte: usize) -> Option<int> {
    if exists|i: int| 0 <= i <= src.len() && utf8_len(#[trigger] src.take(i)) == byte {
        Some(choose|i: int| 0 <= i <= src.len() && utf8_len(#[trigger] src.take(i)) == byte)
    } else {
        None
    }
}

/// The character range of `src` that the node's byte range covers, when
/// both ends fall on character boundaries in order.
pub open spec fn node_char_span(src: Seq<char>, node: (usize, usize, Seq<char>, usize)) -> Option<(int, int)> {
    match (char_position(src, node.0), char_position(src, node.1)) {
        (Some(i), Some(j)) => if i <= j {
            Some((i, j))
        } else {
            None
        },
        _ => None,
    }
}

/// The line number (from 1) of a node starting on row `row` (from 0).
pub open spec fn line_of_row(row: usize) -> usize {
    if row < usize::MAX {
        (row + 1) as usize
    } else {
        row
    }
}

/// A captured literal as plain values: span, text, value, line, indent.
pub open spec fn capture_view(c: LiteralCapture) -> (Span, Seq<char>, Seq<char>, usize, Seq<char>) {
    (c.span, c.raw@, c.value@, c.line, c.indent@)
}

/// The literal that `node` stands for in `src`, when its text parses as a
/// string literal.
pub open spec fn node_capture(src: Seq<char>, node: (usize, usize, Seq<char>, usize)) -> Option<
    (Span, Seq<char>, Seq<char>, usize, Seq<char>),
> {
    match node_char_span(src, node) {
        Some((i, j)) => match string_literal_value(src.subrange(i, j)) {
            Some(v) => Some(
                (
                    Span { start: i as usize, end: j as usize },
                    src.subrange(i, j),
                    v,
                    line_of_row(node.3),
                    indent_at(src, i),
                ),
            ),
            None => None,
        },
        None => None,
    }
}

/// The text of `node` in `src`, when it does not parse as a string literal.
pub open spec fn node_failure(src: Seq<char>, node: (usize, usize, Seq<char>, usize)) -> Option<Seq<char>> {
    match node_char_span(src, node) {
        Some((i, j)) => if string_literal_value(src.subrange(i, j)) is None {
            Some(src.subrange(i, j))
        } else {
            None
        },
        None => None,
    }
}

/// A literal node whose text is not a string literal.
#[derive(Debug)]
pub struct LiteralFailure {
    pub text: Vec<char>,
    pub message: String,
}

/// What one literal node gives.
#[derive(Debug)]
pub enum NodeLiteral {
    Captured(LiteralCapture),
    Unparsable(LiteralFailure),
    /// The node's byte range does not fall on character boundaries of the
    /// source.
    Misplaced,
}

proof fn lemma_utf8_len_strict(s: Seq<char>, i: int, j: int)
    requires
        0 <= i < j <= s.len(),
    ensures
        utf8_len(s.take(i)) < utf8_len(s.take(j)),
    decreases j - i,
{
    lemma_utf8_len_step(s, j - 1);
    if i < j - 1 {
        lemma_utf8_len_strict(s, i, j - 1);
    }
}

fn char_position_of(chars: &[char], byte: usize) -> (res: Option<usize>)
    ensures
        match res {
            Some(i) => char_position(chars@, byte) == Some(i as int),
            None => char_position(chars@, byte) is None,
        },
{
    let r = char_index_of_byte(chars, byte);
    proof {
        if let Some(i) = r {
            let c = choose|k: int| 0 <= k <= chars@.len() && utf8_len(#[trigger] chars@.take(k)) == byte;
            if c < i {
                lemma_utf8_len_strict(chars@, c, i as int);
            } else if c > i {
                lemma_utf8_len_strict(chars@, i as int, c);
            }
        }
    }
    r
}

/// The literal that `node` stands for in the source whose characters are
/// `chars`: its text parsed by `litrs`, with its line and indent.
pub fn literal_capture_from_node(chars: &[char], node: &SyntaxNode) -> (res: NodeLiteral)
    ensures
        match res {
            NodeLiteral::Captured(c) => c.wf() && c.as_read() && node_capture(chars@, node@)
                == Some(capture_view(c)),
            NodeLiteral::Unparsable(f) => node_capture(chars@, node@) is None && node_failure(chars@, node@) == Some(f.text@),
            NodeLiteral::Misplaced => node_char_span(chars@, node@) is None,
        },
{
    let i: usize = match char_position_of(chars, node.start_byte) {
        Some(i) => i,
        None => return NodeLiteral::Misplaced,
    };
    let j: usize = match char_position_of(chars, node.end_byte) {
        Some(j) => j,
        None => return NodeLiteral::Misplaced,
    };
    if i > j {
        return NodeLiteral::Misplaced;
    }
    let text: &[char] = &chars[i..j];
    assert(text@ == chars@.subrange(i as int, j as int));
    let mut raw: Vec<char> = Vec::new();
    push_range(&mut raw, chars, i, j);
    match parse_string_literal(text) {
        Ok(value) => {
            let line: usize = if node.row < usize::MAX {
                node.row + 1
            } else {
                node.row
            };
            let indent = literal_indent(chars, i);
            NodeLiteral::Captured(
                LiteralCapture { span: Span { start: i, end: j }, raw, value, line, indent },
            )
        },
        Err(message) => NodeLiteral::Unparsable(LiteralFailure { text: raw, message }),
    }
}

/// The literals of a source file and the literal nodes that failed to parse.
#[derive(Debug)]
pub struct CaptureScan {
    pub captures: Vec<LiteralCapture>,
    pub failures: Vec<LiteralFailure>,
}

/// For each selected literal node, in order, what it gives in `source`:
/// the captured literals, and the texts that did not parse.
pub fn captures_from_selection(source: &str, selected: &[SelectedLiteral]) -> (res: CaptureScan)
    ensures
        forall|i: int|
            0 <= i < res.captures@.len() ==> (#[trigger] res.captures@[i]).wf()
                && res.captures@[i].as_read(),
        res.captures@.map_values(|c: LiteralCapture| capture_view(c)) == somes(
            Seq::new(selected@.len(), |k: int| node_capture(source@, selected@[k].node@)),
        ),
        res.failures@.map_values(|f: LiteralFailure| f.text@) == somes(
            Seq::new(selected@.len(), |k: int| node_failure(source@, selected@[k].node@)),
        ),
{
    let chars: Vec<char> = chars_of(source);
    let mut captures: Vec<LiteralCapture> = Vec::new();
    let mut failures: Vec<LiteralFailure> = Vec::new();
    let ghost cf = |k: int| node_capture(source@, selected@[k].node@);
    let ghost ff = |k: int| node_failure(source@, selected@[k].node@);
    let mut i: usize = 0;
    while i < selected.len()
        invariant
            chars@ == source@,
            i <= selected@.len(),
            cf == (|k: int| node_capture(source@, selected@[k].node@)),
            ff == (|k: int| node_failure(source@, selected@[k].node@)),
            forall|q: int|
                0 <= q < captures@.len() ==> (#[trigger] captures@[q]).wf()
                    && captures@[q].as_read(),
            captures@.map_values(|c: LiteralCapture| capture_view(c)) == somes(Seq::new(i as nat, cf)),
            failures@.map_values(|f: LiteralFailure| f.text@) == somes(Seq::new(i as nat, ff)),
        decreases selected@.len() - i,
    {
        assert(Seq::new((i + 1) as nat, cf).drop_last() =~= Seq::new(i as nat, cf));
        assert(Seq::new((i + 1) as nat, ff).drop_last() =~= Seq::new(i as nat, ff));
        let ghost cb = captures@;
        let ghost fb = failures@;
        match literal_capture_from_node(chars.as_slice(), &selected[i].node) {
            NodeLiteral::Captured(c) => {
                captures.push(c);
                assert(captures@.map_values(|c: LiteralCapture| capture_view(c)) =~= cb.map_values(
                    |c: LiteralCapture| capture_view(c),
                ).push(cf(i as int)->0));
                assert(failures@.map_values(|f: LiteralFailure| f.text@) =~= fb.map_values(
                    |f: LiteralFailure| f.text@,
                ));
            },
            NodeLiteral::Unparsable(f) => {
                failures.push(f);
                assert(failures@.map_values(|f: LiteralFailure| f.text@) =~= fb.map_values(
                    |f: LiteralFailure| f.text@,
                ).push(ff(i as int)->0));
            },
            NodeLiteral::Misplaced => {},
        }
        i += 1;
    }
    CaptureScan { captures, failures }
}

} // verus!
