//! Moving between byte offsets into UTF-8 text and character positions.
use vstd::prelude::*;
use vstd::utf8::{encode_scalar, encode_utf8};

verus! {

/// The characters of `s`.
pub fn chars_of(s: &str) -> (res: Vec<char>)
    ensures
        res@ == s@,
{
    let mut out: Vec<char> = Vec::new();
    for c in it: s.chars()
        invariant
            out@ == it.seq().take(it.index() as int),
    {
        out.push(c);
    }
    out
}

/// Number of bytes of the UTF-8 encoding of `s`.
pub open spec fn utf8_len(s: Seq<char>) -> nat {
    encode_utf8(s).len()
}

/// Encoding a concatenation encodes the parts one after the other.
pub proof fn lemma_encode_concat(a: Seq<char>, b: Seq<char>)
    ensures
        encode_utf8(a + b) == encode_utf8(a) + encode_utf8(b),
    decreases a.len(),
{
    if a.len() == 0 {
        assert(a + b =~= b);
        assert(encode_utf8(a) =~= Seq::<u8>::empty());
        assert(encode_utf8(a) + encode_utf8(b) =~= encode_utf8(b));
    } else {
        lemma_encode_concat(a.drop_first(), b);
        assert((a + b).drop_first() =~= a.drop_first() + b);
        assert((a + b)[0] == a[0]);
    }
}

/// The encoding of a prefix grows by the width of the next character.
pub proof fn lemma_utf8_len_step(s: Seq<char>, i: int)
    requires
        0 <= i < s.len(),
    ensures
        utf8_len(s.take(i + 1)) == utf8_len(s.take(i)) + encode_scalar(s[i] as u32).len(),
{
    lemma_encode_concat(s.take(i), seq![s[i]]);
    assert(s.take(i + 1) =~= s.take(i) + seq![s[i]]);
    let one = seq![s[i]];
    assert(one.drop_first() =~= Seq::<char>::empty());
    assert(encode_utf8(one.drop_first()) =~= Seq::<u8>::empty());
    assert(encode_utf8(one) == encode_scalar(one[0] as u32) + encode_utf8(one.drop_first()));
    assert(encode_utf8(one) =~= encode_scalar(s[i] as u32));
}

/// Number of bytes of the UTF-8 encoding of `c` (`char::len_utf8`).
pub fn utf8_width(c: char) -> (w: usize)
    ensures
        w == encode_scalar(c as u32).len(),
        1 <= w <= 4,
{
    let v: u32 = c as u32;
    if v <= 0x7f {
        1
    } else if v <= 0x7ff {
        2
    } else if v <= 0xffff {
        proof {
            vstd::utf8::char_is_scalar(c);
        }
        3
    } else {
        4
    }
}

/// The character position in `chars` at which the UTF-8 encoding of `chars`
/// reaches byte offset `byte`, if it reaches it at a character boundary.
pub fn char_index_of_byte(chars: &[char], byte: usize) -> (res: Option<usize>)
    ensures
        match res {
            Some(i) => i <= chars@.len() && utf8_len(chars@.take(i as int)) == byte,
            None => forall|i: int| 0 <= i <= chars@.len() ==> utf8_len(#[trigger] chars@.take(i)) != byte,
        },
{
    let mut i: usize = 0;
    let mut pos: usize = 0;
    assert(chars@.take(0) =~= Seq::<char>::empty());
    while i < chars.len() && pos < byte
        invariant
            i <= chars@.len(),
            pos == utf8_len(chars@.take(i as int)),
            forall|k: int| 0 <= k < i ==> utf8_len(#[trigger] chars@.take(k)) < byte,
            pos <= byte,
        decreases chars@.len() - i,
    {
        let w: usize = utf8_width(chars[i]);
        proof {
            lemma_utf8_len_step(chars@, i as int);
        }
        if w > byte - pos {
            proof {
                assert forall|k: int| 0 <= k <= chars@.len() implies utf8_len(#[trigger] chars@.take(k))
                    != byte by {
                    if k > i {
                        lemma_utf8_len_monotone(chars@, i + 1, k);
                    }
                }
            }
            return None;
        }
        pos = pos + w;
        i += 1;
    }
    if pos == byte {
        Some(i)
    } else {
        proof {
            assert forall|k: int| 0 <= k <= chars@.len() implies utf8_len(#[trigger] chars@.take(k))
                != byte by {
                if k == i {
                } else if k > i {
                    assert(false);
                }
            }
        }
        None
    }
}

/// Encodings of longer prefixes are at least as long.
pub proof fn lemma_utf8_len_monotone(s: Seq<char>, i: int, j: int)
    requires
        0 <= i <= j <= s.len(),
    ensures
        utf8_len(s.take(i)) <= utf8_len(s.take(j)),
    decreases j - i,
{
    if i < j {
        lemma_utf8_len_step(s, j - 1);
        lemma_utf8_len_monotone(s, i, j - 1);
    }
}

} // verus!
