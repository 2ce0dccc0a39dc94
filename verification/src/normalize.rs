//! What the formatter is given for a literal: its value, with the layout
//! that the literal's own indentation added taken away again.
use vstd::prelude::*;

use crate::text::{line_len, lemma_line_len_bound, push_range, strip_indent, stripped_lines};

verus! {

/// A space or a tab.
pub open spec fn is_blank(c: char) -> bool {
    c == ' ' || c == '\t'
}

/// Every character of `s` is a space or a tab.
pub open spec fn all_blank(s: Seq<char>) -> bool {
    forall|j: int| 0 <= j < s.len() ==> is_blank(s[j])
}

/// Number of spaces and tabs at the start of `s`.
pub open spec fn leading_blanks(s: Seq<char>) -> nat
    decreases s.len(),
{
    if s.len() > 0 && is_blank(s[0]) {
        1 + leading_blanks(s.drop_first())
    } else {
        0
    }
}

/// Position of the first `c` in `s`, or the length of `s`.
pub open spec fn first_index_of(s: Seq<char>, c: char) -> nat
    decreases s.len(),
{
    if s.len() == 0 {
        0
    } else if s[0] == c {
        0
    } else {
        1 + first_index_of(s.drop_first(), c)
    }
}

/// Position of the last `c` in `s`, or -1.
pub open spec fn last_index_of(s: Seq<char>, c: char) -> int
    decreases s.len(),
{
    if s.len() == 0 {
        -1
    } else if s.last() == c {
        s.len() - 1
    } else {
        last_index_of(s.drop_last(), c)
    }
}

/// `s` holds a double quote before another one.
pub open spec fn has_two_quotes(s: Seq<char>) -> bool {
    exists|i: int, j: int| 0 <= i < j < s.len() && s[i] == '"' && s[j] == '"'
}

/// What lies between the first and the last double quote of `raw`.
pub open spec fn literal_inner(raw: Seq<char>) -> Seq<char> {
    raw.subrange(first_index_of(raw, '"') as int + 1, last_index_of(raw, '"'))
}

/// When `raw` is a raw string literal (it starts with `r`), `value` is the
/// text between its quotes.
pub open spec fn raw_value_agrees(raw: Seq<char>, value: Seq<char>) -> bool {
    raw.len() > 0 && raw[0] == 'r' ==> value == literal_inner(raw)
}

/// The last line of `inner` when there is a line feed before it and the
/// line holds only spaces and tabs (the indent of a closing quote on its own
/// line); otherwise nothing.
pub open spec fn closing_indent(inner: Seq<char>) -> Seq<char> {
    let p = last_index_of(inner, '\n');
    if p < 0 {
        seq![]
    } else if all_blank(inner.skip(p + 1)) {
        inner.skip(p + 1)
    } else {
        seq![]
    }
}

/// The first line of `s` as `str::lines` gives it: without its line feed,
/// and without a carriage return just before that line feed.
pub open spec fn line_content(s: Seq<char>) -> Seq<char> {
    let k = line_len(s) as int;
    if k < s.len() && k > 0 && s[k - 1] == '\r' {
        s.take(k - 1)
    } else {
        s.take(k)
    }
}

/// The leading spaces and tabs of the first line of `s` that holds anything
/// else, if any line does.
pub open spec fn first_content_indent(s: Seq<char>) -> Option<Seq<char>>
    decreases s.len(),
{
    if s.len() == 0 {
        None
    } else {
        let k = line_len(s) as int;
        proof {
            lemma_line_len_bound(s);
        }
        let c = line_content(s);
        let b = leading_blanks(c) as int;
        if b < c.len() {
            Some(c.take(b))
        } else if k < s.len() {
            first_content_indent(s.skip(k + 1))
        } else {
            None
        }
    }
}

/// The body of the literal `raw` starts with a line feed.
pub open spec fn starts_with_newline(raw: Seq<char>) -> bool {
    let inner = literal_inner(raw);
    inner.len() > 0 && inner[0] == '\n'
}

/// `value` without the layout that the literal `raw` wraps around its
/// content: a line feed at the start when the body starts with one, and the
/// indent of a closing quote that stands on a line of its own.
pub open spec fn value_without_layout(raw: Seq<char>, value: Seq<char>) -> Seq<char> {
    let ci = closing_indent(literal_inner(raw));
    let v1 = if starts_with_newline(raw) && value.len() > 0 && value[0] == '\n' {
        value.drop_first()
    } else {
        value
    };
    if ci.len() > 0 && ci.len() <= v1.len() && v1.skip(v1.len() - ci.len()) == ci {
        v1.take(v1.len() - ci.len())
    } else {
        v1
    }
}

/// The text handed to the formatter for a string literal written as `raw`
/// whose value is `value`: the value without its layout and, when the body
/// starts with a line feed, with the indent of its first line with content
/// taken off every line that starts with it.
pub open spec fn normalized_content(raw: Seq<char>, value: Seq<char>) -> Seq<char> {
    let v = value_without_layout(raw, value);
    if starts_with_newline(raw) {
        match first_content_indent(v) {
            Some(li) => if li.len() > 0 {
                stripped_lines(v, li)
            } else {
                v
            },
            None => v,
        }
    } else {
        v
    }
}

/// `k` is the position of the first `c` in `s` (or its length).
pub proof fn lemma_first_index_at(s: Seq<char>, c: char, k: int)
    requires
        0 <= k <= s.len(),
        forall|j: int| 0 <= j < k ==> s[j] != c,
        k == s.len() || s[k] == c,
    ensures
        first_index_of(s, c) == k,
    decreases k,
{
    if k > 0 {
        assert forall|j: int| 0 <= j < k - 1 implies s.drop_first()[j] != c by {
            assert(s.drop_first()[j] == s[j + 1]);
        }
        lemma_first_index_at(s.drop_first(), c, k - 1);
    }
}

/// `k` is the position of the last `c` in `s` (or -1).
pub proof fn lemma_last_index_at(s: Seq<char>, c: char, k: int)
    requires
        -1 <= k < s.len(),
        forall|j: int| k < j < s.len() ==> s[j] != c,
        k == -1 || s[k] == c,
    ensures
        last_index_of(s, c) == k,
    decreases s.len(),
{
    if s.len() > 0 && k < s.len() - 1 {
        assert forall|j: int| k < j < s.drop_last().len() implies s.drop_last()[j] != c by {
            assert(s.drop_last()[j] == s[j]);
        }
        lemma_last_index_at(s.drop_last(), c, k);
    }
}

proof fn lemma_leading_blanks_at(s: Seq<char>, k: int)
    requires
        0 <= k <= s.len(),
        forall|j: int| 0 <= j < k ==> is_blank(s[j]),
        k == s.len() || !is_blank(s[k]),
    ensures
        leading_blanks(s) == k,
    decreases k,
{
    if k > 0 {
        assert forall|j: int| 0 <= j < k - 1 implies is_blank(s.drop_first()[j]) by {
            assert(s.drop_first()[j] == s[j + 1]);
        }
        lemma_leading_blanks_at(s.drop_first(), k - 1);
    }
}

/// Position of the first `c` in `s[from..to]`, or `to`.
fn find_char(s: &[char], from: usize, to: usize, c: char) -> (k: usize)
    requires
        from <= to <= s@.len(),
    ensures
        from <= k <= to,
        forall|j: int| from <= j < k ==> s@[j] != c,
        k < to ==> s@[k as int] == c,
{
    let mut k: usize = from;
    while k < to && s[k] != c
        invariant
            from <= k <= to <= s@.len(),
            forall|j: int| from <= j < k ==> s@[j] != c,
        decreases to - k,
    {
        k += 1;
    }
    k
}

/// One past the position of the last `c` in `s[from..to]`, or `from`.
fn rfind_char(s: &[char], from: usize, to: usize, c: char) -> (k: usize)
    requires
        from <= to <= s@.len(),
    ensures
        from <= k <= to,
        forall|j: int| k <= j < to ==> s@[j] != c,
        k > from ==> s@[k - 1] == c,
{
    let mut k: usize = to;
    while k > from && s[k - 1] != c
        invariant
            from <= k <= to <= s@.len(),
            forall|j: int| k <= j < to ==> s@[j] != c,
        decreases k,
    {
        k -= 1;
    }
    k
}

/// Number of spaces and tabs at the start of `s[from..to]`.
fn blank_count(s: &[char], from: usize, to: usize) -> (b: usize)
    requires
        from <= to <= s@.len(),
    ensures
        b <= to - from,
        b == leading_blanks(s@.subrange(from as int, to as int)),
        forall|j: int| from <= j < from + b ==> is_blank(#[trigger] s@[j]),
{
    let mut k: usize = from;
    while k < to && (s[k] == ' ' || s[k] == '\t')
        invariant
            from <= k <= to <= s@.len(),
            forall|j: int| from <= j < k ==> is_blank(s@[j]),
        decreases to - k,
    {
        k += 1;
    }
    proof {
        let t = s@.subrange(from as int, to as int);
        assert forall|j: int| 0 <= j < k - from implies is_blank(t[j]) by {
            assert(t[j] == s@[from + j]);
        }
        if k < to {
            assert(t[k - from] == s@[k as int]);
        }
        lemma_leading_blanks_at(t, k - from);
    }
    k - from
}

/// The leading spaces and tabs of the first line of `s` that holds
/// something else, as a range `start..end` of `s`.
fn first_content_indent_range(s: &[char]) -> (res: Option<(usize, usize)>)
    ensures
        match res {
            Some((a, b)) => a <= b <= s@.len() && first_content_indent(s@) == Some(
                s@.subrange(a as int, b as int),
            ),
            None => first_content_indent(s@) is None,
        },
{
    let n: usize = s.len();
    let mut i: usize = 0;
    assert(s@.skip(0) =~= s@);
    while i < n
        invariant
            n == s@.len(),
            i <= n,
            first_content_indent(s@.skip(i as int)) == first_content_indent(s@),
        decreases n - i,
    {
        let k: usize = find_char(s, i, n, '\n');
        let ghost t = s@.skip(i as int);
        proof {
            assert forall|j: int| 0 <= j < k - i implies t[j] != '\n' by {
                assert(t[j] == s@[i + j]);
            }
            if k < n {
                assert(t[k - i] == s@[k as int]);
            }
            crate::text::lemma_line_len_at(t, k - i);
        }
        let e: usize = if k < n && k > i && s[k - 1] == '\r' {
            k - 1
        } else {
            k
        };
        assert(line_content(t) =~= s@.subrange(i as int, e as int));
        let b: usize = blank_count(s, i, e);
        if b < e - i {
            assert(line_content(t).take(b as int) =~= s@.subrange(i as int, (i + b) as int));
            return Some((i, i + b));
        }
        if k < n {
            assert(t.skip(k - i + 1) =~= s@.skip(k + 1));
            i = k + 1;
        } else {
            return None;
        }
    }
    assert(s@.skip(n as int) =~= Seq::<char>::empty());
    None
}

/// The positions `first` and `last` of the first and the last double quote
/// of `raw`.
fn quote_positions(raw: &[char]) -> (res: (usize, usize))
    requires
        has_two_quotes(raw@),
    ensures
        res.0 < res.1 < raw@.len(),
        literal_inner(raw@) == raw@.subrange(res.0 + 1, res.1 as int),
{
    let n: usize = raw.len();
    let first: usize = find_char(raw, 0, n, '"');
    proof {
        lemma_first_index_at(raw@, '"', first as int);
    }
    let last1: usize = rfind_char(raw, 0, n, '"');
    proof {
        lemma_last_index_at(raw@, '"', last1 - 1);
        let (i, j) = choose|i: int, j: int|
            0 <= i < j < raw@.len() && raw@[i] == '"' && raw@[j] == '"';
        assert(first <= i);
        assert(j < last1);
    }
    (first, last1 - 1)
}

/// The length of the closing indent of the inner text `raw[first + 1 .. last]`,
/// which ends that text.
fn closing_indent_len(raw: &[char], first: usize, last: usize) -> (ci_len: usize)
    requires
        first < last <= raw@.len(),
    ensures
        ci_len <= last - first - 1,
        closing_indent(raw@.subrange(first + 1, last as int)) == raw@.subrange(
            last - ci_len,
            last as int,
        ),
{
    let ghost inner = raw@.subrange(first + 1, last as int);
    let nl1: usize = rfind_char(raw, first + 1, last, '\n');
    proof {
        let k: int = nl1 - 1 - (first + 1);
        assert forall|j: int| k < j < inner.len() implies inner[j] != '\n' by {
            assert(inner[j] == raw@[first + 1 + j]);
        }
        if nl1 > first + 1 {
            assert(inner[k] == raw@[nl1 - 1]);
        }
        lemma_last_index_at(inner, '\n', k);
    }
    if nl1 > first + 1 {
        let b: usize = blank_count(raw, nl1, last);
        assert(inner.skip(nl1 - (first + 1)) =~= raw@.subrange(nl1 as int, last as int));
        proof {
            let tail = raw@.subrange(nl1 as int, last as int);
            if b == last - nl1 {
                lemma_leading_blanks_all(tail);
            } else {
                lemma_leading_blanks_stops(tail);
            }
        }
        if b == last - nl1 {
            return b;
        }
    }
    assert(raw@.subrange(last as int, last as int) =~= Seq::<char>::empty());
    0
}

/// Whether `value` ends with `raw[last - len .. last]`.
fn ends_with_range(value: &[char], raw: &[char], last: usize, len: usize) -> (res: bool)
    requires
        len <= last <= raw@.len(),
    ensures
        res == (len <= value@.len() && value@.skip(value@.len() - len) == raw@.subrange(
            last - len,
            last as int,
        )),
{
    let vn: usize = value.len();
    if len > vn {
        return false;
    }
    let mut q: usize = 0;
    while q < len
        invariant
            len <= vn,
            len <= last <= raw@.len(),
            vn == value@.len(),
            q <= len,
            forall|j: int| 0 <= j < q ==> #[trigger] value@.skip(vn - len)[j] == raw@.subrange(
                last - len,
                last as int,
            )[j],
        decreases len - q,
    {
        if value[vn - len + q] != raw[last - len + q] {
            assert(value@.skip(vn - len)[q as int] != raw@.subrange(last - len, last as int)[q as int]);
            return false;
        }
        q += 1;
    }
    assert(value@.skip(vn - len) =~= raw@.subrange(last - len, last as int));
    true
}

/// The range `start..end` of `value` that `value_without_layout` keeps.
fn layout_free_range(raw: &[char], value: &[char]) -> (res: (usize, usize))
    requires
        has_two_quotes(raw@),
    ensures
        res.0 <= res.1 <= value@.len(),
        value_without_layout(raw@, value@) == value@.subrange(res.0 as int, res.1 as int),
{
    let (first, last) = quote_positions(raw);
    let leading_newline: bool = first + 1 < last && raw[first + 1] == '\n';
    assert(leading_newline == starts_with_newline(raw@));
    let ci_len: usize = closing_indent_len(raw, first, last);
    let ghost ci = closing_indent(literal_inner(raw@));
    let vn: usize = value.len();
    let start: usize = if leading_newline && vn > 0 && value[0] == '\n' {
        1
    } else {
        0
    };
    let ghost v1 = if starts_with_newline(raw@) && value@.len() > 0 && value@[0] == '\n' {
        value@.drop_first()
    } else {
        value@
    };
    assert(v1 =~= value@.subrange(start as int, vn as int));
    let v: &[char] = &value[start..vn];
    assert(v@ == v1);
    if ci_len > 0 && ends_with_range(v, raw, last, ci_len) {
        assert(v1.take(v1.len() - ci.len()) =~= value@.subrange(start as int, (vn - ci_len) as int));
        (start, vn - ci_len)
    } else {
        (start, vn)
    }
}

/// The text handed to the formatter for a literal written as `raw` whose
/// value is `value` (see `normalized_content`).
pub fn normalized_content_for_formatter(raw: &[char], value: &[char]) -> (res: Vec<char>)
    requires
        has_two_quotes(raw@),
    ensures
        res@ == normalized_content(raw@, value@),
{
    let (start, end) = layout_free_range(raw, value);
    let (first, last) = quote_positions(raw);
    let leading_newline: bool = first + 1 < last && raw[first + 1] == '\n';
    let v: &[char] = &value[start..end];
    if leading_newline {
        match first_content_indent_range(v) {
            Some((a, b)) => {
                if a < b {
                    let indent: &[char] = &v[a..b];
                    return strip_indent(v, indent);
                }
            },
            None => {},
        }
    }
    let mut out: Vec<char> = Vec::new();
    push_range(&mut out, v, 0, v.len());
    assert(v@.subrange(0, v@.len() as int) =~= v@);
    out
}

proof fn lemma_leading_blanks_all(s: Seq<char>)
    requires
        leading_blanks(s) == s.len(),
    ensures
        all_blank(s),
    decreases s.len(),
{
    if s.len() > 0 {
        lemma_leading_blanks_all(s.drop_first());
        assert forall|j: int| 0 <= j < s.len() implies is_blank(s[j]) by {
            if j > 0 {
                assert(s[j] == s.drop_first()[j - 1]);
            }
        }
    }
}

proof fn lemma_leading_blanks_stops(s: Seq<char>)
    requires
        leading_blanks(s) < s.len(),
    ensures
        !all_blank(s),
    decreases s.len(),
{
    if s.len() > 0 && is_blank(s[0]) {
        lemma_leading_blanks_stops(s.drop_first());
        let j: int = choose|j: int| 0 <= j < s.drop_first().len() && !is_blank(s.drop_first()[j]);
        assert(s[j + 1] == s.drop_first()[j]);
    }
}

/// The spaces and tabs that start the line of `src` holding position
/// `start`, up to that position.
pub open spec fn indent_at(src: Seq<char>, start: int) -> Seq<char> {
    let line_start = last_index_of(src.take(start), '\n') + 1;
    let line = src.subrange(line_start, start);
    line.take(leading_blanks(line) as int)
}

/// The indent of the line on which a literal starting at `literal_start`
/// stands: its spaces and tabs up to the literal.
pub fn literal_indent(src: &[char], literal_start: usize) -> (res: Vec<char>)
    requires
        literal_start <= src@.len(),
    ensures
        res@ == indent_at(src@, literal_start as int),
        all_blank(res@),
{
    let k: usize = rfind_char(src, 0, literal_start, '\n');
    proof {
        let t = src@.take(literal_start as int);
        assert forall|j: int| k - 1 < j < t.len() implies t[j] != '\n' by {
            assert(t[j] == src@[j]);
        }
        if k > 0 {
            assert(t[k - 1] == src@[k - 1]);
        }
        lemma_last_index_at(t, '\n', k - 1);
    }
    let b: usize = blank_count(src, k, literal_start);
    let mut out: Vec<char> = Vec::new();
    push_range(&mut out, src, k, k + b);
    assert(src@.subrange(k as int, literal_start as int).take(b as int) =~= src@.subrange(
        k as int,
        (k + b) as int,
    ));
    out
}

/// Dropping the literal's layout from its value removes at most a leading
/// line feed and, at the end, a run of spaces and tabs with no line feed in
/// it: what remains is a stretch of the value, and every character after
/// it is a space or a tab. The line feed goes only when the literal's body
/// starts with one, and the tail only when it is the whole last line of the
/// body (the indent of a closing quote on its own line). A last line that
/// holds anything else is kept whole.
pub proof fn lemma_layout_removes_only_blank_tail(raw: Seq<char>, value: Seq<char>)
    ensures
        ({
            let v = value_without_layout(raw, value);
            let inner = literal_inner(raw);
            exists|d: int|
                #![trigger value.subrange(d, d + v.len())]
                0 <= d <= 1 && (d == 1 ==> value[0] == '\n' && inner[0] == '\n') && d + v.len()
                    <= value.len() && value.subrange(d, d + v.len()) == v && all_blank(
                    value.skip(d + v.len()),
                ) && (value.skip(d + v.len()).len() > 0 ==> (last_index_of(inner, '\n') >= 0
                    && value.skip(d + v.len()) == inner.skip(last_index_of(inner, '\n') + 1)))
        }),
{
    let ci = closing_indent(literal_inner(raw));
    let d: int = if starts_with_newline(raw) && value.len() > 0 && value[0] == '\n' {
        1
    } else {
        0
    };
    let v1 = value.skip(d);
    let v = value_without_layout(raw, value);
    if d == 1 {
        assert(v1 =~= value.drop_first());
    } else {
        assert(v1 =~= value);
    }
    if ci.len() > 0 && ci.len() <= v1.len() && v1.skip(v1.len() - ci.len()) == ci {
        assert(v == v1.take(v1.len() - ci.len()));
        assert(value.subrange(d, d + v.len()) =~= v);
        assert(value.skip(d + v.len()) =~= ci);
        let inner = literal_inner(raw);
        let p = last_index_of(inner, '\n');
        assert(p >= 0);
        assert(all_blank(inner.skip(p + 1)));
    } else {
        assert(v == v1);
        assert(value.subrange(d, d + v.len()) =~= v);
        assert(value.skip(d + v.len()) =~= Seq::<char>::empty());
    }
}

} // verus!
