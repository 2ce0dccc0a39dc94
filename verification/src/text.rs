//! Line-oriented text operations on character sequences.
use vstd::prelude::*;

verus! {

/// Number of characters before the first line feed of `s` (or all of `s`).
pub open spec fn line_len(s: Seq<char>) -> nat
    decreases s.len(),
{
    if s.len() == 0 {
        0
    } else if s[0] == '\n' {
        0
    } else {
        1 + line_len(s.drop_first())
    }
}

/// `s` holds no line feed.
pub open spec fn no_newline(s: Seq<char>) -> bool {
    forall|j: int| 0 <= j < s.len() ==> s[j] != '\n'
}

pub proof fn lemma_line_len_bound(s: Seq<char>)
    ensures
        line_len(s) <= s.len(),
        line_len(s) < s.len() ==> s[line_len(s) as int] == '\n',
        no_newline(s.take(line_len(s) as int)),
    decreases s.len(),
{
    if s.len() > 0 && s[0] != '\n' {
        lemma_line_len_bound(s.drop_first());
        assert forall|j: int| 0 <= j < line_len(s) implies #[trigger] s.take(line_len(s) as int)[j]
            != '\n' by {
            if j > 0 {
                assert(s.take(line_len(s) as int)[j] == s.drop_first().take(
                    line_len(s.drop_first()) as int,
                )[j - 1]);
            }
        }
    }
}

/// `k` is the position of the first line feed of `s`, or its length.
pub proof fn lemma_line_len_at(s: Seq<char>, k: int)
    requires
        0 <= k <= s.len(),
        forall|j: int| 0 <= j < k ==> s[j] != '\n',
        k == s.len() || s[k] == '\n',
    ensures
        line_len(s) == k,
    decreases k,
{
    if k > 0 {
        assert forall|j: int| 0 <= j < k - 1 implies s.drop_first()[j] != '\n' by {
            assert(s.drop_first()[j] == s[j + 1]);
        }
        lemma_line_len_at(s.drop_first(), k - 1);
    }
}

/// `line` without the prefix `indent`, when it starts with it.
pub open spec fn strip_line_prefix(line: Seq<char>, indent: Seq<char>) -> Seq<char> {
    if indent.len() <= line.len() && line.take(indent.len() as int) == indent {
        line.skip(indent.len() as int)
    } else {
        line
    }
}

/// `line` with `indent` put in front of it, unless the line is empty.
pub open spec fn indent_line(line: Seq<char>, indent: Seq<char>) -> Seq<char> {
    if line.len() == 0 {
        line
    } else {
        indent + line
    }
}

/// Every line of `s` (the pieces between line feeds) with the prefix `indent`
/// removed where the line starts with it; the line feeds are kept.
pub open spec fn stripped_lines(s: Seq<char>, indent: Seq<char>) -> Seq<char>
    decreases s.len(),
{
    if s.len() == 0 {
        seq![]
    } else {
        let k: int = line_len(s) as int;
        proof {
            lemma_line_len_bound(s);
        }
        if k < s.len() {
            strip_line_prefix(s.take(k), indent) + seq!['\n'] + stripped_lines(s.skip(k + 1), indent)
        } else {
            strip_line_prefix(s.take(k), indent)
        }
    }
}

/// Every non-empty line of `s` with `indent` put in front of it; the line
/// feeds are kept.
pub open spec fn indented_lines(s: Seq<char>, indent: Seq<char>) -> Seq<char>
    decreases s.len(),
{
    if s.len() == 0 {
        seq![]
    } else {
        let k: int = line_len(s) as int;
        proof {
            lemma_line_len_bound(s);
        }
        if k < s.len() {
            indent_line(s.take(k), indent) + seq!['\n'] + indented_lines(s.skip(k + 1), indent)
        } else {
            indent_line(s.take(k), indent)
        }
    }
}

/// The first line of `x`, a line feed and `y` is `x`, when `x` holds no
/// line feed.
pub proof fn lemma_line_len_newline_free(x: Seq<char>, y: Seq<char>)
    requires
        no_newline(x),
    ensures
        line_len(x) == x.len(),
        line_len(x + seq!['\n'] + y) == x.len(),
        (x + seq!['\n'] + y).take(x.len() as int) == x,
        (x + seq!['\n'] + y).skip(x.len() as int + 1) == y,
{
    lemma_line_len_at(x, x.len() as int);
    let t = x + seq!['\n'] + y;
    assert forall|j: int| 0 <= j < x.len() implies t[j] != '\n' by {
        assert(t[j] == x[j]);
    }
    assert(t[x.len() as int] == '\n');
    lemma_line_len_at(t, x.len() as int);
    assert(t.take(x.len() as int) =~= x);
    assert(t.skip(x.len() as int + 1) =~= y);
}

proof fn lemma_strip_indent_line(line: Seq<char>, indent: Seq<char>)
    ensures
        strip_line_prefix(indent_line(line, indent), indent) == line,
{
    if line.len() == 0 {
        if indent.len() == 0 {
            assert(line.take(0) =~= indent);
            assert(line.skip(0) =~= line);
        }
    } else {
        assert((indent + line).take(indent.len() as int) =~= indent);
        assert((indent + line).skip(indent.len() as int) =~= line);
    }
}

/// Indenting a block and then stripping the same indent gives the block
/// back, whenever the indent holds no line feed.
pub proof fn lemma_strip_indent_undoes_indent_block(block: Seq<char>, indent: Seq<char>)
    requires
        no_newline(indent),
    ensures
        stripped_lines(indented_lines(block, indent), indent) == block,
    decreases block.len(),
{
    if block.len() > 0 {
        lemma_line_len_bound(block);
        let k: int = line_len(block) as int;
        let line = block.take(k);
        let il = indent_line(line, indent);
        assert(no_newline(il)) by {
            assert forall|j: int| 0 <= j < il.len() implies il[j] != '\n' by {
                if line.len() > 0 && j >= indent.len() {
                    assert(il[j] == line[j - indent.len()]);
                }
            }
        }
        lemma_strip_indent_line(line, indent);
        if k < block.len() {
            let rest = block.skip(k + 1);
            lemma_strip_indent_undoes_indent_block(rest, indent);
            let t = indented_lines(block, indent);
            assert(t == il + seq!['\n'] + indented_lines(rest, indent));
            lemma_line_len_newline_free(il, indented_lines(rest, indent));
            assert(t.len() > 0);
            lemma_line_len_bound(t);
            assert(stripped_lines(t, indent) == strip_line_prefix(il, indent) + seq!['\n']
                + stripped_lines(indented_lines(rest, indent), indent));
            assert(block =~= line + seq!['\n'] + rest);
        } else {
            lemma_line_len_newline_free(il, seq![]);
            assert(line =~= block);
            let t = indented_lines(block, indent);
            assert(t == il);
            lemma_line_len_bound(t);
            assert(t.take(il.len() as int) =~= il);
            assert(stripped_lines(t, indent) == strip_line_prefix(il, indent));
        }
    }
}

/// Appends `s[from..to]` to `out`.
pub fn push_range(out: &mut Vec<char>, s: &[char], from: usize, to: usize)
    requires
        from <= to <= s@.len(),
    ensures
        final(out)@ == old(out)@ + s@.subrange(from as int, to as int),
{
    let mut i: usize = from;
    while i < to
        invariant
            from <= i <= to <= s@.len(),
            out@ == old(out)@ + s@.subrange(from as int, i as int),
        decreases to - i,
    {
        out.push(s[i]);
        i += 1;
        assert(s@.subrange(from as int, i as int) =~= s@.subrange(from as int, (i - 1) as int).push(
            s@[i - 1],
        ));
    }
}

/// Appends all of `s` to `out`.
pub fn push_all(out: &mut Vec<char>, s: &[char])
    ensures
        final(out)@ == old(out)@ + s@,
{
    push_range(out, s, 0, s.len());
    assert(s@.subrange(0, s@.len() as int) =~= s@);
}

/// Index of the first line feed in `s` at or after `from`, or `s.len()`.
fn line_end(s: &[char], from: usize) -> (k: usize)
    requires
        from <= s@.len(),
    ensures
        from <= k <= s@.len(),
        forall|j: int| from <= j < k ==> s@[j] != '\n',
        k < s@.len() ==> s@[k as int] == '\n',
        line_len(s@.skip(from as int)) == k - from,
{
    let mut k: usize = from;
    while k < s.len() && s[k] != '\n'
        invariant
            from <= k <= s@.len(),
            forall|j: int| from <= j < k ==> s@[j] != '\n',
        decreases s@.len() - k,
    {
        k += 1;
    }
    proof {
        let t = s@.skip(from as int);
        assert forall|j: int| 0 <= j < k - from implies t[j] != '\n' by {
            assert(t[j] == s@[j + from]);
        }
        lemma_line_len_at(t, k - from);
    }
    k
}

/// Whether `s[from..to]` starts with `prefix`.
fn range_starts_with(s: &[char], from: usize, to: usize, prefix: &[char]) -> (res: bool)
    requires
        from <= to <= s@.len(),
    ensures
        res == (prefix@.len() <= to - from && s@.subrange(from as int, to as int).take(
            prefix@.len() as int,
        ) == prefix@),
{
    if prefix.len() > to - from {
        return false;
    }
    let mut j: usize = 0;
    while j < prefix.len()
        invariant
            prefix@.len() <= to - from,
            from <= to <= s@.len(),
            0 <= j <= prefix@.len(),
            forall|q: int| 0 <= q < j ==> s@[from + q] == prefix@[q],
        decreases prefix@.len() - j,
    {
        if s[from + j] != prefix[j] {
            assert(s@.subrange(from as int, to as int).take(prefix@.len() as int)[j as int]
                != prefix@[j as int]);
            return false;
        }
        j += 1;
    }
    assert(s@.subrange(from as int, to as int).take(prefix@.len() as int) =~= prefix@);
    true
}

/// One step of the line recursion: the line starting at `i` ends at `k`.
proof fn lemma_line_step(s: Seq<char>, i: int, k: int)
    requires
        0 <= i < s.len(),
        i <= k <= s.len(),
        line_len(s.skip(i)) == k - i,
    ensures
        s.skip(i).take(k - i) == s.subrange(i, k),
        k < s.len() ==> s.skip(i).skip(k - i + 1) == s.skip(k + 1),
        k == s.len() ==> s.skip(i).len() == k - i,
{
    assert(s.skip(i).take(k - i) =~= s.subrange(i, k));
    if k < s.len() {
        assert(s.skip(i).skip(k - i + 1) =~= s.skip(k + 1));
    }
}

/// Removes `indent` from the start of every line of `block` that starts with
/// it.
pub fn strip_indent(block: &[char], indent: &[char]) -> (res: Vec<char>)
    ensures
        res@ == stripped_lines(block@, indent@),
{
    let n: usize = block.len();
    let mut out: Vec<char> = Vec::new();
    let mut i: usize = 0;
    assert(block@.skip(0) =~= block@);
    while i < n
        invariant
            n == block@.len(),
            i <= n,
            out@ + stripped_lines(block@.skip(i as int), indent@) == stripped_lines(block@, indent@),
        decreases n - i,
    {
        let k: usize = line_end(block, i);
        proof {
            lemma_line_step(block@, i as int, k as int);
        }
        let ghost before = out@;
        if range_starts_with(block, i, k, indent) {
            push_range(&mut out, block, i + indent.len(), k);
            assert(block@.subrange(i as int, k as int).skip(indent@.len() as int) =~= block@.subrange(
                i + indent@.len(),
                k as int,
            ));
        } else {
            push_range(&mut out, block, i, k);
        }
        assert(out@ == before + strip_line_prefix(block@.subrange(i as int, k as int), indent@));
        if k < n {
            out.push('\n');
            i = k + 1;
        } else {
            i = n;
        }
    }
    assert(block@.skip(n as int) =~= Seq::<char>::empty());
    out
}

/// Puts `indent` in front of every non-empty line of `block`.
pub fn indent_block(block: &[char], indent: &[char]) -> (res: Vec<char>)
    ensures
        res@ == indented_lines(block@, indent@),
{
    let n: usize = block.len();
    let mut out: Vec<char> = Vec::new();
    let mut i: usize = 0;
    assert(block@.skip(0) =~= block@);
    while i < n
        invariant
            n == block@.len(),
            i <= n,
            out@ + indented_lines(block@.skip(i as int), indent@) == indented_lines(block@, indent@),
        decreases n - i,
    {
        let k: usize = line_end(block, i);
        proof {
            lemma_line_step(block@, i as int, k as int);
        }
        let ghost before = out@;
        if k > i {
            push_all(&mut out, indent);
            push_range(&mut out, block, i, k);
            assert(out@ =~= before + (indent@ + block@.subrange(i as int, k as int)));
        }
        assert(out@ == before + indent_line(block@.subrange(i as int, k as int), indent@));
        if k < n {
            out.push('\n');
            i = k + 1;
        } else {
            i = n;
        }
    }
    assert(block@.skip(n as int) =~= Seq::<char>::empty());
    out
}

} // verus!
