//! Turning formatter output back into Rust string literal syntax.
use vstd::prelude::*;

use crate::text::{indent_block, indented_lines, push_all};

verus! {

/// `char::is_control`: the Unicode general category Cc.
pub open spec fn is_control(c: char) -> bool {
    (c as u32) <= 0x1f || (0x7f <= (c as u32) && (c as u32) <= 0x9f)
}

/// When `raw` is a regular literal written as a double quote, some text
/// escaped by `escaped` and a double quote, `value` is that text.
pub open spec fn regular_value_agrees(raw: Seq<char>, value: Seq<char>) -> bool {
    forall|t: Seq<char>| raw == quoted(#[trigger] escaped(t)) ==> value == t
}

/// `s` is a regular literal that `escaped` wrote: a double quote, some
/// escaped text and a double quote.
pub open spec fn written_by_escape(s: Seq<char>) -> bool {
    exists|t: Seq<char>| s == quoted(#[trigger] escaped(t))
}

/// `s` between two double quotes.
pub open spec fn quoted(s: Seq<char>) -> Seq<char> {
    seq!['"'] + s + seq!['"']
}

/// The upper-case hexadecimal digit for `d` (for `d < 16`).
pub open spec fn hex_digit(d: nat) -> char {
    if d < 10 {
        (d + 48) as char
    } else {
        (d + 55) as char
    }
}

/// `n` in upper-case hexadecimal, without leading zeros.
pub open spec fn hex_upper(n: nat) -> Seq<char>
    decreases n,
{
    if n < 16 {
        seq![hex_digit(n)]
    } else {
        hex_upper(n / 16) + seq![hex_digit(n % 16)]
    }
}

/// How one character is written inside a regular (non-raw) string literal.
pub open spec fn escape_char(c: char) -> Seq<char> {
    if c == '"' {
        seq!['\\', '"']
    } else if c == '\\' {
        seq!['\\', '\\']
    } else if c == '\r' {
        seq!['\\', 'r']
    } else if c == '\t' {
        seq!['\\', 't']
    } else if c == '\0' {
        seq!['\\', '0']
    } else if is_control(c) {
        seq!['\\', 'u', '{'] + hex_upper((c as u32) as nat) + seq!['}']
    } else {
        seq![c]
    }
}

/// `s` with every character escaped by `escape_char`.
pub open spec fn escaped(s: Seq<char>) -> Seq<char>
    decreases s.len(),
{
    if s.len() == 0 {
        seq![]
    } else {
        escaped(s.drop_last()) + escape_char(s.last())
    }
}

fn hex_digit_char(d: u32) -> (c: char)
    requires
        d < 16,
    ensures
        c == hex_digit(d as nat),
{
    if d < 10 {
        ((d + 48) as u8) as char
    } else {
        ((d + 55) as u8) as char
    }
}

/// Appends the escaped form of `c` to `out`.
fn push_escaped_char(out: &mut Vec<char>, c: char)
    ensures
        final(out)@ == old(out)@ + escape_char(c),
{
    let ghost before = out@;
    if c == '"' {
        out.push('\\');
        out.push('"');
    } else if c == '\\' {
        out.push('\\');
        out.push('\\');
    } else if c == '\r' {
        out.push('\\');
        out.push('r');
    } else if c == '\t' {
        out.push('\\');
        out.push('t');
    } else if c == '\0' {
        out.push('\\');
        out.push('0');
    } else if (c as u32) <= 0x1f || (0x7f <= (c as u32) && (c as u32) <= 0x9f) {
        let v: u32 = c as u32;
        out.push('\\');
        out.push('u');
        out.push('{');
        proof {
            reveal_with_fuel(hex_upper, 2);
        }
        if v >= 16 {
            out.push(hex_digit_char(v / 16));
        }
        out.push(hex_digit_char(v % 16));
        out.push('}');
        assert(out@ =~= before + escape_char(c));
        return;
    } else {
        out.push(c);
    }
    assert(out@ =~= before + escape_char(c));
}

/// Escapes `formatted` for use inside a regular string literal.
pub fn escape_regular_string(formatted: &[char]) -> (res: Vec<char>)
    ensures
        res@ == escaped(formatted@),
{
    let mut out: Vec<char> = Vec::new();
    let mut i: usize = 0;
    while i < formatted.len()
        invariant
            i <= formatted@.len(),
            out@ == escaped(formatted@.take(i as int)),
        decreases formatted@.len() - i,
    {
        assert(formatted@.take(i + 1).drop_last() =~= formatted@.take(i as int));
        push_escaped_char(&mut out, formatted[i]);
        i += 1;
    }
    assert(formatted@.take(i as int) =~= formatted@);
    out
}

/// A double quote followed by `hashes` hash signs: the text that would end a
/// raw string literal with that many hashes.
pub open spec fn raw_delimiter(hashes: nat) -> Seq<char> {
    seq!['"'] + Seq::new(hashes, |i: int| '#')
}

/// `p` occurs somewhere in `s`.
pub open spec fn contains_seq(s: Seq<char>, p: Seq<char>) -> bool {
    exists|i: int| 0 <= i && i + p.len() <= s.len() && #[trigger] s.subrange(i, i + p.len()) == p
}

/// The least number of hashes, from `h` on, whose delimiter does not occur
/// in `s`.
pub open spec fn free_hashes_from(s: Seq<char>, h: nat) -> nat
    decreases s.len() + 1 - h,
{
    if h > s.len() || !contains_seq(s, raw_delimiter(h)) {
        h
    } else {
        free_hashes_from(s, h + 1)
    }
}

/// The number of hashes a raw string literal holding `s` needs: the least
/// count whose closing delimiter does not occur in `s`.
pub open spec fn raw_hashes_needed(s: Seq<char>) -> nat {
    free_hashes_from(s, 0)
}

/// Whether the delimiter with `hashes` hashes occurs in `s` at `i`.
fn delimiter_at(s: &[char], i: usize, hashes: usize) -> (res: bool)
    requires
        i < s@.len(),
    ensures
        res == (i + 1 + hashes <= s@.len() && s@.subrange(i as int, i + 1 + hashes)
            == raw_delimiter(hashes as nat)),
{
    if s[i] != '"' || hashes > s.len() - i - 1 {
        proof {
            if i + 1 + hashes <= s@.len() {
                assert(s@.subrange(i as int, i + 1 + hashes)[0] != raw_delimiter(hashes as nat)[0]);
            }
        }
        return false;
    }
    let n: usize = s.len();
    let mut j: usize = 0;
    while j < hashes
        invariant
            n == s@.len(),
            i + 1 + hashes <= n,
            s@[i as int] == '"',
            j <= hashes,
            forall|q: int| i + 1 <= q < i + 1 + j ==> s@[q] == '#',
        decreases hashes - j,
    {
        if s[i + 1 + j] != '#' {
            assert(s@.subrange(i as int, i + 1 + hashes)[1 + j] != raw_delimiter(hashes as nat)[1
                + j]);
            return false;
        }
        j += 1;
    }
    assert(s@.subrange(i as int, i + 1 + hashes) =~= raw_delimiter(hashes as nat));
    true
}

/// Whether the delimiter with `hashes` hashes occurs anywhere in `s`.
fn contains_delimiter(s: &[char], hashes: usize) -> (res: bool)
    ensures
        res == contains_seq(s@, raw_delimiter(hashes as nat)),
{
    let ghost p = raw_delimiter(hashes as nat);
    let mut i: usize = 0;
    while i < s.len()
        invariant
            i <= s@.len(),
            p == raw_delimiter(hashes as nat),
            forall|q: int| 0 <= q < i ==> !(q + p.len() <= s@.len() && #[trigger] s@.subrange(q, q + p.len()) == p),
        decreases s@.len() - i,
    {
        if delimiter_at(s, i, hashes) {
            assert(p.len() == 1 + hashes);
            assert(s@.subrange(i as int, i + p.len()) == p);
            return true;
        }
        i += 1;
    }
    proof {
        assert forall|q: int| 0 <= q && q + p.len() <= s@.len() implies #[trigger] s@.subrange(q, q + p.len())
            != p by {
            assert(q < i);
        }
    }
    false
}

/// The number of hashes needed to write `content` as a raw string literal.
pub fn required_raw_hashes(content: &[char]) -> (res: usize)
    ensures
        res == raw_hashes_needed(content@),
{
    let n: usize = content.len();
    let mut hashes: usize = 0;
    while contains_delimiter(content, hashes)
        invariant
            n == content@.len(),
            hashes <= n,
            free_hashes_from(content@, hashes as nat) == raw_hashes_needed(content@),
        decreases content@.len() + 1 - hashes,
    {
        proof {
            let w: int = choose|i: int|
                0 <= i && i + raw_delimiter(hashes as nat).len() <= content@.len()
                    && #[trigger] content@.subrange(i, i + raw_delimiter(hashes as nat).len())
                    == raw_delimiter(hashes as nat);
            assert(hashes + 1 <= content@.len());
        }
        hashes += 1;
    }
    hashes
}

proof fn lemma_free_hashes_from(s: Seq<char>, h: nat)
    requires
        forall|k: nat| k < h ==> contains_seq(s, #[trigger] raw_delimiter(k)),
    ensures
        free_hashes_from(s, h) >= h,
        !contains_seq(s, raw_delimiter(free_hashes_from(s, h))),
        forall|k: nat| k < free_hashes_from(s, h) ==> contains_seq(s, #[trigger] raw_delimiter(k)),
    decreases s.len() + 1 - h,
{
    if h > s.len() {
        assert(!contains_seq(s, raw_delimiter(h)));
    } else if contains_seq(s, raw_delimiter(h)) {
        lemma_free_hashes_from(s, h + 1);
    }
}

/// The hash count chosen for a raw string literal is the least one whose
/// closing delimiter (a quote followed by that many hashes) does not occur
/// in the content, so the literal cannot end early.
pub proof fn lemma_raw_hashes_needed(s: Seq<char>)
    ensures
        !contains_seq(s, raw_delimiter(raw_hashes_needed(s))),
        forall|k: nat| k < raw_hashes_needed(s) ==> contains_seq(s, #[trigger] raw_delimiter(k)),
{
    lemma_free_hashes_from(s, 0);
}

/// Number of line feeds at the end of `s`.
pub open spec fn trailing_newlines(s: Seq<char>) -> nat
    decreases s.len(),
{
    if s.len() > 0 && s.last() == '\n' {
        1 + trailing_newlines(s.drop_last())
    } else {
        0
    }
}

/// Number of line feeds at the start of `s`.
pub open spec fn leading_newlines(s: Seq<char>) -> nat
    decreases s.len(),
{
    if s.len() > 0 && s[0] == '\n' {
        1 + leading_newlines(s.drop_first())
    } else {
        0
    }
}

/// `s` without its trailing line feeds (`trim_end_matches('\n')`).
pub open spec fn trim_end_newlines(s: Seq<char>) -> Seq<char> {
    s.take(s.len() - trailing_newlines(s))
}

/// `s` without its leading and trailing line feeds (`trim_matches('\n')`).
pub open spec fn trim_newlines(s: Seq<char>) -> Seq<char> {
    let t = trim_end_newlines(s);
    t.skip(leading_newlines(t) as int)
}

proof fn lemma_trailing_at(s: Seq<char>, k: int)
    requires
        0 <= k <= s.len(),
        forall|j: int| k <= j < s.len() ==> s[j] == '\n',
        k == 0 || s[k - 1] != '\n',
    ensures
        trailing_newlines(s) == s.len() - k,
    decreases s.len(),
{
    if s.len() > k {
        assert forall|j: int| k <= j < s.drop_last().len() implies s.drop_last()[j] == '\n' by {
            assert(s.drop_last()[j] == s[j]);
        }
        lemma_trailing_at(s.drop_last(), k);
    }
}

proof fn lemma_leading_at(s: Seq<char>, k: int)
    requires
        0 <= k <= s.len(),
        forall|j: int| 0 <= j < k ==> s[j] == '\n',
        k == s.len() || s[k] != '\n',
    ensures
        leading_newlines(s) == k,
    decreases k,
{
    if k > 0 {
        assert forall|j: int| 0 <= j < k - 1 implies s.drop_first()[j] == '\n' by {
            assert(s.drop_first()[j] == s[j + 1]);
        }
        lemma_leading_at(s.drop_first(), k - 1);
    }
}

/// Length of `s` without its trailing line feeds.
fn trimmed_end_len(s: &[char]) -> (k: usize)
    ensures
        k <= s@.len(),
        k == s@.len() - trailing_newlines(s@),
{
    let mut k: usize = s.len();
    while k > 0 && s[k - 1] == '\n'
        invariant
            k <= s@.len(),
            forall|j: int| k <= j < s@.len() ==> s@[j] == '\n',
        decreases k,
    {
        k -= 1;
    }
    proof {
        lemma_trailing_at(s@, k as int);
    }
    k
}

/// Number of line feeds at the start of `s[..end]`.
fn leading_newline_count(s: &[char], end: usize) -> (k: usize)
    requires
        end <= s@.len(),
    ensures
        k <= end,
        k == leading_newlines(s@.take(end as int)),
{
    let mut k: usize = 0;
    while k < end && s[k] == '\n'
        invariant
            k <= end <= s@.len(),
            forall|j: int| 0 <= j < k ==> s@[j] == '\n',
        decreases end - k,
    {
        k += 1;
    }
    proof {
        lemma_leading_at(s@.take(end as int), k as int);
    }
    k
}

/// Whether `s[from..to]` holds the character `c`.
fn range_has_char(s: &[char], from: usize, to: usize, c: char) -> (res: bool)
    requires
        from <= to <= s@.len(),
    ensures
        res == (exists|j: int| from <= j < to && s@[j] == c),
{
    let mut i: usize = from;
    while i < to
        invariant
            from <= i <= to <= s@.len(),
            forall|j: int| from <= j < i ==> s@[j] != c,
        decreases to - i,
    {
        if s[i] == c {
            return true;
        }
        i += 1;
    }
    false
}

/// `n` hash signs.
pub open spec fn hash_run(n: nat) -> Seq<char> {
    Seq::new(n, |i: int| '#')
}

fn push_hashes(out: &mut Vec<char>, n: usize)
    ensures
        final(out)@ == old(out)@ + hash_run(n as nat),
{
    let mut i: usize = 0;
    while i < n
        invariant
            i <= n,
            out@ == old(out)@ + hash_run(i as nat),
        decreases n - i,
    {
        out.push('#');
        i += 1;
        assert(old(out)@ + hash_run(i as nat) =~= old(out)@ + hash_run((i - 1) as nat) + seq!['#']);
    }
}

/// The Rust string literal that `rewrite_literal` produces for the
/// formatter output `formatted`, for a literal whose line starts with
/// `indent`: a regular literal when the output (without trailing line feeds)
/// fits on one line, otherwise a raw literal whose body starts on its own
/// line, with every non-empty line indented and the closing quote on a line
/// of its own at the literal's indent.
pub open spec fn rewritten(formatted: Seq<char>, indent: Seq<char>) -> Seq<char> {
    let t = trim_end_newlines(formatted);
    if forall|j: int| 0 <= j < t.len() ==> t[j] != '\n' {
        seq!['"'] + escaped(t) + seq!['"']
    } else {
        let h = hash_run(raw_hashes_needed(formatted));
        seq!['r'] + h + seq!['"', '\n'] + indented_lines(trim_newlines(formatted), indent) + (if formatted.len()
            > 0 && formatted.last() == '\n' {
            seq!['\n']
        } else {
            seq![]
        }) + indent + seq!['"'] + h
    }
}

/// Writes the formatter output `formatted` back as a string literal for a
/// literal whose line starts with `indent`.
pub fn rewrite_literal(formatted: &[char], indent: &[char]) -> (res: Vec<char>)
    ensures
        res@ == rewritten(formatted@, indent@),
{
    let end: usize = trimmed_end_len(formatted);
    let ghost t = formatted@.take(end as int);
    if !range_has_char(formatted, 0, end, '\n') {
        assert forall|j: int| 0 <= j < t.len() implies t[j] != '\n' by {
            assert(t[j] == formatted@[j]);
        }
        let mut out: Vec<char> = Vec::new();
        out.push('"');
        let escaped_text = escape_regular_string(&formatted[0..end]);
        assert(formatted@.subrange(0, end as int) == t);
        push_all(&mut out, escaped_text.as_slice());
        out.push('"');
        return out;
    }
    let ghost witness = choose|j: int| 0 <= j < end && formatted@[j] == '\n';
    assert(t[witness] == '\n');
    let hashes: usize = required_raw_hashes(formatted);
    let mut out: Vec<char> = Vec::new();
    out.push('r');
    push_hashes(&mut out, hashes);
    out.push('"');
    out.push('\n');
    let lead: usize = leading_newline_count(formatted, end);
    assert(formatted@.subrange(lead as int, end as int) =~= t.skip(lead as int));
    let body = indent_block(&formatted[lead..end], indent);
    push_all(&mut out, body.as_slice());
    if formatted.len() > 0 && formatted[formatted.len() - 1] == '\n' {
        out.push('\n');
    }
    push_all(&mut out, indent);
    out.push('"');
    push_hashes(&mut out, hashes);
    out
}

/// Escaping writes every character other than a double quote, a backslash
/// or a control character as itself: a text without those characters (such
/// as SQL with single-quoted strings) is its own escaped form.
pub proof fn lemma_plain_text_escapes_to_itself(s: Seq<char>)
    requires
        forall|i: int| 0 <= i < s.len() ==> s[i] != '"' && s[i] != '\\' && !is_control(#[trigger] s[i]),
    ensures
        escaped(s) == s,
    decreases s.len(),
{
    if s.len() > 0 {
        let d = s.drop_last();
        assert forall|i: int| 0 <= i < d.len() implies d[i] != '"' && d[i] != '\\' && !is_control(#[trigger] d[i]) by {
            assert(d[i] == s[i]);
        }
        lemma_plain_text_escapes_to_itself(d);
        let c = s.last();
        assert(s[s.len() - 1] == c);
        assert(c != '\r' && c != '\t' && c != '\0') by {
            assert(!is_control(c));
        }
        assert(escape_char(c) == seq![c]);
        assert(s =~= d + seq![c]);
    }
}

/// A delimiter occurs in a text with a line feed appended exactly when it
/// occurs in the text.
proof fn lemma_delimiter_after_newline(s: Seq<char>, h: nat)
    ensures
        contains_seq(s.push('\n'), raw_delimiter(h)) == contains_seq(s, raw_delimiter(h)),
{
    let p = raw_delimiter(h);
    let s2 = s.push('\n');
    if contains_seq(s2, p) {
        let i = choose|i: int| 0 <= i && i + p.len() <= s2.len() && #[trigger] s2.subrange(i, i + p.len()) == p;
        if i + p.len() == s2.len() {
            assert(s2.subrange(i, i + p.len())[p.len() - 1] == s2[s2.len() - 1]);
            assert(p[p.len() - 1] == '"' || p[p.len() - 1] == '#');
        } else {
            assert(s.subrange(i, i + p.len()) =~= s2.subrange(i, i + p.len()));
        }
    }
    if contains_seq(s, p) {
        let i = choose|i: int| 0 <= i && i + p.len() <= s.len() && #[trigger] s.subrange(i, i + p.len()) == p;
        assert(s.subrange(i, i + p.len()) =~= s2.subrange(i, i + p.len()));
    }
}

proof fn lemma_free_hashes_after_newline(s: Seq<char>, h: nat)
    ensures
        free_hashes_from(s.push('\n'), h) == free_hashes_from(s, h),
    decreases s.len() + 2 - h,
{
    let s2 = s.push('\n');
    lemma_delimiter_after_newline(s, h);
    if h > s.len() {
        if h <= s2.len() {
            assert(raw_delimiter(h).len() == h + 1);
            if contains_seq(s2, raw_delimiter(h)) {
                let i = choose|i: int| 0 <= i && i + raw_delimiter(h).len() <= s2.len()
                    && #[trigger] s2.subrange(i, i + raw_delimiter(h).len()) == raw_delimiter(h);
            }
        }
    } else if contains_seq(s, raw_delimiter(h)) {
        lemma_free_hashes_after_newline(s, h + 1);
    }
}

proof fn lemma_trailing_bound(s: Seq<char>)
    ensures
        trailing_newlines(s) <= s.len(),
    decreases s.len(),
{
    if s.len() > 0 && s.last() == '\n' {
        lemma_trailing_bound(s.drop_last());
    }
}

/// The literal written for formatter output that ends with a line feed does
/// not change when the output ends with one more: however many line feeds
/// the output ends with, a raw literal has exactly one between its last
/// line and the closing quote's line.
pub proof fn lemma_extra_trailing_newline_ignored(formatted: Seq<char>, indent: Seq<char>)
    requires
        formatted.len() > 0,
        formatted.last() == '\n',
    ensures
        rewritten(formatted.push('\n'), indent) == rewritten(formatted, indent),
{
    let f2 = formatted.push('\n');
    assert(f2.drop_last() =~= formatted);
    assert(trailing_newlines(f2) == 1 + trailing_newlines(formatted));
    lemma_trailing_bound(formatted);
    let n = formatted.len() - trailing_newlines(formatted);
    assert(f2.take(n) =~= formatted.take(n));
    assert(trim_end_newlines(f2) =~= trim_end_newlines(formatted));
    lemma_free_hashes_after_newline(formatted, 0);
}

} // verus!
