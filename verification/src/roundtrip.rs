//! Rewriting canonical multi-line formatter output as a raw string literal
//! and normalizing that literal again gives the output back, so a second run
//! with a formatter that keeps its own output leaves such a literal as it is.
//! A single-line literal reads back as the text it was written for, as the
//! literal parser reads it (see `parse_string_literal`) and, independently,
//! by this module's own statement of Rust's string escapes (`unescaped`).
use vstd::prelude::*;

use crate::literal::{
    quoted, escape_char, escaped, hex_digit, hex_upper, is_control,
    hash_run, leading_newlines, raw_hashes_needed, rewritten, trailing_newlines, trim_end_newlines,
    trim_newlines,
};
use crate::normalize::{
    all_blank, closing_indent, first_content_indent, first_index_of, is_blank, lemma_first_index_at, lemma_last_index_at,
    leading_blanks, line_content, literal_inner, normalized_content, starts_with_newline,
    value_without_layout,
};
use crate::plan::{replacement_for, FormatterCommandOutput, LiteralCapture};
use crate::text::{
    indent_line, indented_lines, lemma_line_len_at, lemma_line_len_bound,
    lemma_line_len_newline_free, lemma_strip_indent_undoes_indent_block, line_len, no_newline, strip_line_prefix, stripped_lines,
};

verus! {

/// Stripping lines commutes with appending a line feed.
proof fn lemma_stripped_push_newline(s: Seq<char>, indent: Seq<char>)
    ensures
        stripped_lines(s + seq!['\n'], indent) == stripped_lines(s, indent) + seq!['\n'],
    decreases s.len(),
{
    let t = s + seq!['\n'];
    lemma_line_len_bound(s);
    lemma_line_len_bound(t);
    let k: int = line_len(s) as int;
    assert(strip_line_prefix(Seq::<char>::empty(), indent) =~= Seq::<char>::empty()) by {
        if indent.len() == 0 {
            assert(Seq::<char>::empty().skip(0) =~= Seq::<char>::empty());
        }
    }
    if s.len() == 0 {
        assert(t =~= seq!['\n']);
        lemma_line_len_at(t, 0);
        assert(t.take(0) =~= Seq::<char>::empty());
        assert(t.skip(1) =~= Seq::<char>::empty());
        assert(stripped_lines(t, indent) == strip_line_prefix(t.take(0), indent) + seq!['\n']
            + stripped_lines(t.skip(1), indent));
        assert(stripped_lines(t, indent) =~= seq!['\n']);
        assert(stripped_lines(s, indent) =~= Seq::<char>::empty());
    } else {
        assert forall|j: int| 0 <= j < k implies t[j] != '\n' by {
            assert(t[j] == s[j]);
            assert(s.take(k)[j] == s[j]);
        }
        if k < s.len() {
            assert(t[k] == s[k]);
            lemma_line_len_at(t, k);
            assert(t.take(k) =~= s.take(k));
            assert(t.skip(k + 1) =~= s.skip(k + 1) + seq!['\n']);
            lemma_stripped_push_newline(s.skip(k + 1), indent);
            assert(stripped_lines(t, indent) == strip_line_prefix(t.take(k), indent) + seq!['\n']
                + stripped_lines(t.skip(k + 1), indent));
            assert(stripped_lines(s, indent) == strip_line_prefix(s.take(k), indent) + seq!['\n']
                + stripped_lines(s.skip(k + 1), indent));
            assert(stripped_lines(t, indent) =~= stripped_lines(s, indent) + seq!['\n']);
        } else {
            assert(t[k] == '\n');
            lemma_line_len_at(t, k);
            assert(t.take(k) =~= s.take(k));
            assert(t.skip(k + 1) =~= Seq::<char>::empty());
            assert(stripped_lines(t, indent) == strip_line_prefix(t.take(k), indent) + seq!['\n']
                + stripped_lines(t.skip(k + 1), indent));
            assert(stripped_lines(s, indent) == strip_line_prefix(s.take(k), indent));
            assert(stripped_lines(t, indent) =~= stripped_lines(s, indent) + seq!['\n']);
        }
    }
}

/// Indenting by nothing changes nothing.
proof fn lemma_indent_nothing(s: Seq<char>)
    ensures
        indented_lines(s, seq![]) == s,
    decreases s.len(),
{
    if s.len() > 0 {
        lemma_line_len_bound(s);
        let k: int = line_len(s) as int;
        let line = s.take(k);
        assert(indent_line(line, seq![]) =~= line);
        if k < s.len() {
            lemma_indent_nothing(s.skip(k + 1));
            assert(s =~= line + seq!['\n'] + s.skip(k + 1));
        } else {
            assert(line =~= s);
        }
    }
}

proof fn lemma_leading_blanks_prefix(ind: Seq<char>, rest: Seq<char>)
    requires
        all_blank(ind),
        rest.len() > 0,
        !is_blank(rest[0]),
    ensures
        leading_blanks(ind + rest) == ind.len(),
    decreases ind.len(),
{
    if ind.len() == 0 {
        assert(ind + rest =~= rest);
    } else {
        assert((ind + rest).drop_first() =~= ind.drop_first() + rest);
        lemma_leading_blanks_prefix(ind.drop_first(), rest);
    }
}

/// The canonical shape of multi-line formatter output: it does not start
/// with a line feed, a space, a tab or a carriage return, ends with exactly
/// one line feed, and has a line feed before that.
pub open spec fn canonical_output(f: Seq<char>) -> bool {
    &&& f.len() > 0
    &&& f[0] != '\n'
    &&& f[0] != '\r'
    &&& !is_blank(f[0])
    &&& f.last() == '\n'
    &&& trailing_newlines(f) == 1
    &&& exists|j: int| 0 <= j < f.len() - 1 && f[j] == '\n'
}

/// The raw literal that canonical output `f` is rewritten to, in pieces.
proof fn lemma_raw_shape(f: Seq<char>, indent: Seq<char>)
    requires
        canonical_output(f),
    ensures
        trim_newlines(f) == f.drop_last(),
        f == f.drop_last() + seq!['\n'],
        f.drop_last().len() > 0,
        f.drop_last()[0] == f[0],
        exists|j: int| 0 <= j < f.drop_last().len() && f.drop_last()[j] == '\n',
        rewritten(f, indent) == seq!['r'] + hash_run(raw_hashes_needed(f)) + seq!['"', '\n']
            + indented_lines(f.drop_last(), indent) + seq!['\n'] + indent + seq!['"'] + hash_run(
            raw_hashes_needed(f),
        ),
{
    let x = f.drop_last();
    assert(trailing_newlines(x) == 0) by {
        if x.len() > 0 {
            assert(x.last() == f[f.len() - 2]);
        }
    }
    assert(trim_end_newlines(f) =~= x);
    let j = choose|j: int| 0 <= j < f.len() - 1 && f[j] == '\n';
    assert(x[j] == f[j]);
    assert(x[0] == f[0]);
    assert(leading_newlines(x) == 0);
    assert(x.skip(0) =~= x);
    assert(!(forall|q: int| 0 <= q < x.len() ==> x[q] != '\n'));
    assert(f =~= x + seq!['\n']);
}

/// The text between the quotes of the raw literal, and its layout.
proof fn lemma_raw_inner(r: Seq<char>, h: Seq<char>, b: Seq<char>, indent: Seq<char>)
    requires
        r == seq!['r'] + h + seq!['"', '\n'] + b + seq!['\n'] + indent + seq!['"'] + h,
        forall|q: int| 0 <= q < h.len() ==> h[q] == '#',
        all_blank(indent),
    ensures
        literal_inner(r) == seq!['\n'] + b + seq!['\n'] + indent,
        starts_with_newline(r),
        closing_indent(literal_inner(r)) == indent,
        value_without_layout(r, literal_inner(r)) == b + seq!['\n'],
{
    let hl: int = h.len() as int;
    assert forall|q: int| 0 <= q < 1 + hl implies r[q] != '"' by {
        if q > 0 {
            assert(r[q] == h[q - 1]);
        }
    }
    assert(r[1 + hl] == '"');
    lemma_first_index_at(r, '"', 1 + hl);
    let last: int = r.len() - 1 - hl;
    assert forall|q: int| last < q < r.len() implies r[q] != '"' by {
        assert(r[q] == h[q - last - 1]);
    }
    assert(r[last] == '"');
    lemma_last_index_at(r, '"', last);
    let inner = literal_inner(r);
    assert(inner =~= seq!['\n'] + b + seq!['\n'] + indent);
    let nl: int = 1 + b.len() as int;
    assert forall|q: int| nl < q < inner.len() implies inner[q] != '\n' by {
        assert(inner[q] == indent[q - nl - 1]);
        assert(is_blank(indent[q - nl - 1]));
    }
    assert(inner[nl] == '\n');
    lemma_last_index_at(inner, '\n', nl);
    assert(inner.skip(nl + 1) =~= indent);
    let v2 = b + seq!['\n'];
    let v1 = inner.drop_first();
    assert(v1 =~= b + seq!['\n'] + indent);
    if indent.len() > 0 {
        assert(v1.skip(v1.len() - indent.len()) =~= indent);
        assert(v1.take(v1.len() - indent.len()) =~= v2);
    } else {
        assert(v1 =~= v2);
    }
}

/// The first line with content of the indented body is the indent followed
/// by the first line of the output.
proof fn lemma_body_indent(x: Seq<char>, indent: Seq<char>)
    requires
        x.len() > 0,
        x[0] != '\n',
        x[0] != '\r',
        !is_blank(x[0]),
        exists|j: int| 0 <= j < x.len() && x[j] == '\n',
        all_blank(indent),
    ensures
        first_content_indent(indented_lines(x, indent) + seq!['\n']) == Some(indent),
{
    let j = choose|j: int| 0 <= j < x.len() && x[j] == '\n';
    lemma_line_len_bound(x);
    let k: int = line_len(x) as int;
    assert(k > 0) by {
        if k == 0 {
            assert(x[0] == '\n');
        }
    }
    assert(k < x.len()) by {
        if k == x.len() {
            assert(x.take(k)[j] == '\n');
        }
    }
    let l1 = x.take(k);
    let rest = x.skip(k + 1);
    let il = indent + l1;
    let b = indented_lines(x, indent);
    assert(b == indent_line(l1, indent) + seq!['\n'] + indented_lines(rest, indent));
    assert(indent_line(l1, indent) == il);
    assert(no_newline(il)) by {
        assert forall|q: int| 0 <= q < il.len() implies il[q] != '\n' by {
            if q < indent.len() {
                assert(il[q] == indent[q]);
                assert(is_blank(indent[q]));
            } else {
                assert(il[q] == l1[q - indent.len()]);
            }
        }
    }
    let tail = indented_lines(rest, indent) + seq!['\n'];
    let v2 = b + seq!['\n'];
    assert(v2 =~= il + seq!['\n'] + tail);
    lemma_line_len_newline_free(il, tail);
    assert(v2.len() > 0);
    lemma_line_len_bound(v2);
    let c = line_content(v2);
    assert(l1[0] == x[0]);
    if l1.len() >= 2 && l1.last() == '\r' {
        assert(v2[il.len() - 1] == '\r');
        assert(c =~= indent + l1.drop_last());
        assert((l1.drop_last())[0] == x[0]);
        lemma_leading_blanks_prefix(indent, l1.drop_last());
    } else {
        assert(v2[il.len() - 1] != '\r') by {
            assert(v2[il.len() - 1] == il[il.len() - 1]);
            assert(il[il.len() - 1] == l1[l1.len() - 1]);
        }
        assert(c =~= il);
        lemma_leading_blanks_prefix(indent, l1);
    }
    assert(c.take(indent.len() as int) =~= indent);
}

/// Rewriting canonical multi-line formatter output `f` as a raw string
/// literal at a blank indent, and normalizing that literal again (a raw
/// literal stands for the text between its quotes), gives `f` back. So a
/// second run of the tool with a formatter that leaves its own output
/// unchanged rewrites nothing.
pub proof fn lemma_rewrite_then_normalize(f: Seq<char>, indent: Seq<char>)
    requires
        canonical_output(f),
        all_blank(indent),
    ensures
        normalized_content(rewritten(f, indent), literal_inner(rewritten(f, indent))) == f,
{
    lemma_raw_shape(f, indent);
    let x = f.drop_last();
    let h = hash_run(raw_hashes_needed(f));
    let b = indented_lines(x, indent);
    let r = rewritten(f, indent);
    lemma_raw_inner(r, h, b, indent);
    lemma_body_indent(x, indent);
    lemma_stripped_push_newline(b, indent);
    assert(no_newline(indent)) by {
        assert forall|q: int| 0 <= q < indent.len() implies indent[q] != '\n' by {
            assert(is_blank(indent[q]));
        }
    }
    lemma_strip_indent_undoes_indent_block(x, indent);
    if indent.len() == 0 {
        assert(indent =~= Seq::<char>::empty());
        lemma_indent_nothing(x);
    }
}

/// A literal that the tool wrote for canonical multi-line formatter output
/// `f`, when it is read from the source again, is handed to the formatter as
/// `f`; and when the formatter answers `f` again, the literal is left as it
/// is. So a second run with a formatter that keeps its
/// own output changes nothing.
pub proof fn lemma_second_run_keeps_raw_literal(
    f: Seq<char>,
    c: LiteralCapture,
    out: FormatterCommandOutput,
    ignore_exit_code: bool,
)
    requires
        canonical_output(f),
        c.as_read(),
        c.raw@ == rewritten(f, c.indent@),
    ensures
        normalized_content(c.raw@, c.value@) == f,
        out.stdout@ == f ==> replacement_for(c, out, ignore_exit_code) is None,
{
    lemma_raw_shape(f, c.indent@);
    assert(c.raw@[0] == 'r');
    lemma_rewrite_then_normalize(f, c.indent@);
}

/// The value of a hexadecimal digit.
pub open spec fn hex_value(c: char) -> Option<nat> {
    if '0' <= c && c <= '9' {
        Some((c as nat - 48) as nat)
    } else if 'A' <= c && c <= 'F' {
        Some((c as nat - 55) as nat)
    } else if 'a' <= c && c <= 'f' {
        Some((c as nat - 87) as nat)
    } else {
        None
    }
}

/// The number written by the hexadecimal digits `ds`.
pub open spec fn hex_number(ds: Seq<char>) -> Option<nat>
    decreases ds.len(),
{
    if ds.len() == 0 {
        None
    } else {
        match hex_value(ds.last()) {
            None => None,
            Some(d) => if ds.len() == 1 {
                Some(d)
            } else {
                match hex_number(ds.drop_last()) {
                    Some(n) => Some(16 * n + d),
                    None => None,
                }
            },
        }
    }
}

/// `c` in front of the text `rest` reads as, if it reads.
pub open spec fn prepend(c: char, rest: Option<Seq<char>>) -> Option<Seq<char>> {
    match rest {
        Some(r) => Some(seq![c] + r),
        None => None,
    }
}

/// What the body `s` of a regular Rust string literal stands for, reading
/// the escapes `\"`, `\\`, `\'`, `\n`, `\r`, `\t`, `\0` and `\u{..}` (one to
/// six hexadecimal digits naming a character); `None` when `s` holds a bare
/// double quote or an escape outside these.
pub open spec fn unescaped(s: Seq<char>) -> Option<Seq<char>>
    decreases s.len(),
{
    if s.len() == 0 {
        Some(seq![])
    } else if s[0] == '"' {
        None
    } else if s[0] != '\\' {
        prepend(s[0], unescaped(s.drop_first()))
    } else if s.len() < 2 {
        None
    } else if s[1] == '"' || s[1] == '\\' || s[1] == '\'' {
        prepend(s[1], unescaped(s.skip(2)))
    } else if s[1] == 'n' {
        prepend('\n', unescaped(s.skip(2)))
    } else if s[1] == 'r' {
        prepend('\r', unescaped(s.skip(2)))
    } else if s[1] == 't' {
        prepend('\t', unescaped(s.skip(2)))
    } else if s[1] == '0' {
        prepend('\0', unescaped(s.skip(2)))
    } else if s[1] == 'u' && s.len() >= 3 && s[2] == '{' {
        let e = first_index_of(s.skip(3), '}') as int;
        if 1 <= e <= 6 && 3 + e < s.len() {
            match hex_number(s.subrange(3, 3 + e)) {
                Some(v) => if v <= 0x10ffff && !(0xd800 <= v <= 0xdfff) {
                    prepend((v as u32) as char, unescaped(s.skip(4 + e)))
                } else {
                    None
                },
                None => None,
            }
        } else {
            None
        }
    } else {
        None
    }
}

proof fn lemma_hex_digit_value(d: nat)
    requires
        d < 16,
    ensures
        hex_value(hex_digit(d)) == Some(d),
        hex_digit(d) != '}',
{
}

proof fn lemma_hex_upper_number(n: nat)
    requires
        n < 256,
    ensures
        hex_number(hex_upper(n)) == Some(n),
        1 <= hex_upper(n).len() <= 2,
        forall|j: int| 0 <= j < hex_upper(n).len() ==> hex_upper(n)[j] != '}',
{
    reveal_with_fuel(hex_upper, 2);
    if n < 16 {
        lemma_hex_digit_value(n);
    } else {
        lemma_hex_digit_value(n / 16);
        lemma_hex_digit_value(n % 16);
        let ds = hex_upper(n);
        assert(ds =~= seq![hex_digit(n / 16), hex_digit(n % 16)]);
        assert(ds.drop_last() =~= seq![hex_digit(n / 16)]);
        assert(hex_number(ds.drop_last()) == Some(n / 16));
        assert(16 * (n / 16) + n % 16 == n) by (nonlinear_arith);
    }
}

/// Reading back the escaped form of one character gives the character.
proof fn lemma_unescape_char(c: char, rest: Seq<char>)
    ensures
        unescaped(escape_char(c) + rest) == prepend(c, unescaped(rest)),
{
    let s = escape_char(c) + rest;
    if c == '"' || c == '\\' || c == '\r' || c == '\t' || c == '\0' {
        assert(s.skip(2) =~= rest);
    } else if is_control(c) {
        let v = (c as u32) as nat;
        lemma_hex_upper_number(v);
        let ds = hex_upper(v);
        let e = ds.len() as int;
        assert(s =~= seq!['\\', 'u', '{'] + ds + seq!['}'] + rest);
        assert(s.skip(3) =~= ds + seq!['}'] + rest);
        assert forall|j: int| 0 <= j < e implies s.skip(3)[j] != '}' by {
            assert(s.skip(3)[j] == ds[j]);
        }
        assert(s.skip(3)[e] == '}');
        lemma_first_index_at(s.skip(3), '}', e);
        assert(s.subrange(3, 3 + e) =~= ds);
        assert(s.skip(4 + e) =~= rest);
        vstd::utf8::char_u32_cast(c, c as u32);
        assert(((v as u32) as char) == c);
    } else {
        assert(s[0] == c);
        assert(s.drop_first() =~= rest);
    }
}

proof fn lemma_escaped_front(t: Seq<char>)
    requires
        t.len() > 0,
    ensures
        escaped(t) == escape_char(t[0]) + escaped(t.drop_first()),
    decreases t.len(),
{
    if t.len() == 1 {
        assert(t.drop_last() =~= Seq::<char>::empty());
        assert(t.drop_first() =~= Seq::<char>::empty());
        assert(escaped(t.drop_last()) =~= Seq::<char>::empty());
        assert(t.last() == t[0]);
        assert(escaped(t) == escaped(t.drop_last()) + escape_char(t.last()));
        assert(escaped(t) =~= escape_char(t[0]));
    } else {
        lemma_escaped_front(t.drop_last());
        assert(t.drop_last().drop_first() =~= t.drop_first().drop_last());
        assert(t.drop_first().last() == t.last());
    }
}

/// Reading back an escaped text gives the text.
pub proof fn lemma_unescape_escaped(t: Seq<char>)
    ensures
        unescaped(escaped(t)) == Some(t),
    decreases t.len(),
{
    if t.len() == 0 {
    } else {
        lemma_escaped_front(t);
        lemma_unescape_escaped(t.drop_first());
        lemma_unescape_char(t[0], escaped(t.drop_first()));
        assert(seq![t[0]] + t.drop_first() =~= t);
    }
}

proof fn lemma_escaped_has_no_newline(t: Seq<char>)
    ensures
        no_newline(escaped(t)),
        escaped(t).len() == 0 || escaped(t)[0] != '\n',
    decreases t.len(),
{
    if t.len() > 0 {
        lemma_escaped_has_no_newline(t.drop_last());
        let a = escaped(t.drop_last());
        let b = escape_char(t.last());
        assert(b.len() > 0);
        reveal_with_fuel(hex_upper, 2);
        let c = t.last();
        if is_control(c) {
            lemma_hex_upper_number((c as u32) as nat);
        }
        assert(no_newline(b));
        assert forall|j: int| 0 <= j < (a + b).len() implies (a + b)[j] != '\n' by {
            if j < a.len() {
                assert((a + b)[j] == a[j]);
            } else {
                assert((a + b)[j] == b[j - a.len()]);
            }
        }
    }
}

/// When the formatter's output (without its trailing line feeds) fits on
/// one line, the regular literal written for it reads back as that text,
/// and normalizing that literal with that value gives the text again.
pub proof fn lemma_regular_literal_reads_back(f: Seq<char>, indent: Seq<char>)
    requires
        no_newline(trim_end_newlines(f)),
    ensures
        unescaped(literal_inner(rewritten(f, indent))) == Some(trim_end_newlines(f)),
        normalized_content(rewritten(f, indent), trim_end_newlines(f)) == trim_end_newlines(f),
{
    let t = trim_end_newlines(f);
    let e = escaped(t);
    let r = rewritten(f, indent);
    assert(r == seq!['"'] + e + seq!['"']);
    assert(r[0] == '"');
    lemma_first_index_at(r, '"', 0);
    assert(r[r.len() - 1] == '"');
    lemma_last_index_at(r, '"', r.len() - 1);
    assert(literal_inner(r) =~= e);
    lemma_unescape_escaped(t);
    lemma_escaped_has_no_newline(t);
    assert(!starts_with_newline(r));
    lemma_last_index_at(e, '\n', -1);
    assert(closing_indent(e) =~= Seq::<char>::empty());
    assert(value_without_layout(r, t) == t);
}

/// Escaping loses nothing: two texts with the same escaped form are equal.
pub proof fn lemma_escaped_injective(a: Seq<char>, b: Seq<char>)
    requires
        escaped(a) == escaped(b),
    ensures
        a == b,
{
    lemma_unescape_escaped(a);
    lemma_unescape_escaped(b);
}

/// A single-line literal that the tool wrote for formatter output `f`, when
/// it is read from the source again, is handed to the formatter as `f`
/// without its trailing line feeds; and when the formatter answers `f`
/// again, the literal is left as it is.
pub proof fn lemma_second_run_keeps_regular_literal(
    f: Seq<char>,
    c: LiteralCapture,
    out: FormatterCommandOutput,
    ignore_exit_code: bool,
)
    requires
        no_newline(trim_end_newlines(f)),
        c.as_read(),
        c.raw@ == rewritten(f, c.indent@),
    ensures
        c.value@ == trim_end_newlines(f),
        normalized_content(c.raw@, c.value@) == trim_end_newlines(f),
        out.stdout@ == f ==> replacement_for(c, out, ignore_exit_code) is None,
{
    let t = trim_end_newlines(f);
    assert(c.raw@ == quoted(escaped(t)));
    lemma_regular_literal_reads_back(f, c.indent@);
}

/// A literal that the tool wrote for formatter output `f`, single-line or
/// canonical multi-line, is left as it is by a second run in which the
/// formatter answers `f` again.
pub proof fn lemma_second_run_keeps_literal(
    f: Seq<char>,
    c: LiteralCapture,
    out: FormatterCommandOutput,
    ignore_exit_code: bool,
)
    requires
        canonical_output(f) || no_newline(trim_end_newlines(f)),
        c.as_read(),
        c.raw@ == rewritten(f, c.indent@),
        out.stdout@ == f,
    ensures
        replacement_for(c, out, ignore_exit_code) is None,
{
    if no_newline(trim_end_newlines(f)) {
        lemma_second_run_keeps_regular_literal(f, c, out, ignore_exit_code);
    } else {
        lemma_second_run_keeps_raw_literal(f, c, out, ignore_exit_code);
    }
}

} // verus!

